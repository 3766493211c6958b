//! The cell: a fixed-size tagged slot of a table block.
//!
//! A cell takes seventeen bytes: one for the tag, eight for the index and
//! eight for the stored key, with no padding between them.

use crate::codec::{
    get_u64, le_bytes_u64, le_u64_at, lemma_u64_round_trip, lemma_zero_words, patched, put_u64,
    same_outside, zero_inside,
};
use vstd::prelude::*;
use vstd::std_specs::convert::FromSpecImpl;

verus! {

/// The number of bytes that one cell takes in a buffer.
pub const SIZE: usize = 17;

/// The possible types of an [`Instance`].
#[derive(PartialEq, Eq, Structural, Debug, Clone, Copy)]
pub enum Type {
    Empty,
    StringPtr,
    TablePtr,
    Unknown,
}

impl Type {
    /// The type that the tag byte `t` stands for.
    pub open spec fn of(t: u8) -> Type {
        if t == 0 {
            Type::Empty
        } else if t == 1 {
            Type::StringPtr
        } else if t == 2 {
            Type::TablePtr
        } else {
            Type::Unknown
        }
    }

    /// The tag byte that stands for this type.
    pub open spec fn spec_code(self) -> u8 {
        match self {
            Type::Empty => 0,
            Type::StringPtr => 1,
            Type::TablePtr => 2,
            Type::Unknown => 255,
        }
    }

    /// The tag byte that stands for this type.
    #[verifier::when_used_as_spec(spec_code)]
    pub fn code(self) -> (t: u8)
        ensures
            t == self.spec_code(),
            Type::of(t) == self,
    {
        match self {
            Type::Empty => 0,
            Type::StringPtr => 1,
            Type::TablePtr => 2,
            Type::Unknown => 255,
        }
    }
}

impl From<u8> for Type {
    fn from(t: u8) -> (r: Type) {
        if t == Type::Empty.code() {
            return Type::Empty;
        }
        if t == Type::StringPtr.code() {
            return Type::StringPtr;
        }
        if t == Type::TablePtr.code() {
            return Type::TablePtr;
        }
        Type::Unknown
    }
}

impl FromSpecImpl<u8> for Type {
    open spec fn obeys_from_spec() -> bool {
        true
    }

    open spec fn from_spec(t: u8) -> Type {
        Type::of(t)
    }
}

/// One cell, as plain values.
#[derive(PartialEq, Eq, Structural, Debug, Clone, Copy)]
pub struct Instance {
    /// The tag byte.
    pub c_type: u8,
    /// Byte pointer index.  For strings, it is relative to the string offset
    /// as recorded in the root header.  For tables, it is relative to the
    /// start of the buffer.
    pub index: usize,
    /// For a string pointer, the key of the stored string; zero for all other
    /// types.
    pub string_key: u64,
}

impl Instance {
    /// The cell whose bytes are the seventeen bytes of `b` from `off` on.
    pub open spec fn at(b: Seq<u8>, off: int) -> Instance {
        Instance {
            c_type: b[off],
            index: le_u64_at(b, off + 1) as usize,
            string_key: le_u64_at(b, off + 9),
        }
    }

    /// The seventeen bytes that stand for this cell.
    pub open spec fn bytes(self) -> Seq<u8> {
        seq![self.c_type] + le_bytes_u64(self.index as u64) + le_bytes_u64(self.string_key)
    }

    /// The cell that zero bytes stand for.
    pub open spec fn vacant() -> Instance {
        Instance { c_type: 0, index: 0, string_key: 0 }
    }

    /// The type of this cell.
    pub open spec fn spec_type(self) -> Type {
        Type::of(self.c_type)
    }

    /// The string offset and the stored key of a string pointer.
    pub fn string_index_and_key(&self) -> (r: (usize, u64))
        requires
            self.spec_type() == Type::StringPtr,
        ensures
            r == (self.index, self.string_key),
    {
        (self.index, self.string_key)
    }

    /// The buffer offset that a table pointer holds.
    pub fn table_index(&self) -> (r: usize)
        requires
            self.spec_type() == Type::TablePtr,
        ensures
            r == self.index,
    {
        self.index
    }

    /// The type of this cell; a tag byte that stands for none is `Unknown`.
    pub fn get_type(&self) -> (t: Type)
        ensures
            t == self.spec_type(),
    {
        let t = self.c_type;
        if t == Type::Empty.code() {
            return Type::Empty;
        }
        if t == Type::StringPtr.code() {
            return Type::StringPtr;
        }
        if t == Type::TablePtr.code() {
            return Type::TablePtr;
        }
        return Type::Unknown;
    }

    /// Makes this cell point to the string at `index`, stored under `key`.
    pub fn become_string_ptr(&mut self, index: usize, key: u64)
        ensures
            *final(self) == (Instance { c_type: 1, index: index, string_key: key }),
    {
        self.become_type(Type::StringPtr, index);
        self.string_key = key;
    }

    /// Makes this cell point to the table at `index`, and clears the stored key.
    pub fn become_table_ptr(&mut self, index: usize)
        ensures
            *final(self) == (Instance { c_type: 2, index: index, string_key: 0 }),
    {
        self.become_type(Type::TablePtr, index);
    }

    fn become_type(&mut self, t: Type, index: usize)
        ensures
            *final(self) == (Instance { c_type: t.spec_code(), index: index, string_key: 0 }),
    {
        self.c_type = t.code();
        self.index = index;
        self.string_key = 0;
    }

    /// Reads the cell that starts at offset `off` of `bytes`.
    pub fn read(bytes: &[u8], off: usize) -> (c: Instance)
        requires
            off + SIZE <= bytes@.len(),
        ensures
            c == Instance::at(bytes@, off as int),
    {
        let end: usize = bytes.len();
        let c_type = bytes[off];
        let index = get_u64(bytes, off + 1);
        let string_key = get_u64(bytes, off + 9);
        Instance { c_type, index: index as usize, string_key }
    }

    /// Writes this cell over the seventeen bytes of `buf` from `off` on.
    pub fn write(&self, buf: &mut Vec<u8>, off: usize)
        requires
            off + SIZE <= old(buf)@.len(),
        ensures
            final(buf)@ == patched(old(buf)@, off as int, self.bytes()),
            final(buf)@.subrange(off as int, off + SIZE) == self.bytes(),
            same_outside(old(buf)@, final(buf)@, off as int, off + SIZE),
            Instance::at(final(buf)@, off as int) == *self,
    {
        let end: usize = buf.len();
        buf[off] = self.c_type;
        put_u64(buf, off + 1, self.index as u64);
        put_u64(buf, off + 9, self.string_key);
        proof {
            assert(buf@ =~= patched(old(buf)@, off as int, self.bytes()));
            Instance::lemma_bytes(*self);
            assert(buf@.subrange(off as int, off + SIZE) =~= self.bytes());
            assert(self.bytes().subrange(0, SIZE as int) =~= self.bytes());
            Instance::lemma_same_bytes(self.bytes(), 0, buf@, off as int);
        }
    }

    /// The bytes of a cell are seventeen, and decode to that cell.
    pub proof fn lemma_bytes(c: Instance)
        ensures
            c.bytes().len() == SIZE,
            Instance::at(c.bytes(), 0) == c,
    {
        let b = c.bytes();
        let i = le_bytes_u64(c.index as u64);
        let k = le_bytes_u64(c.string_key);
        lemma_u64_round_trip(c.index as u64);
        lemma_u64_round_trip(c.string_key);
        assert(forall|j: int| 0 <= j < 8 ==> b[1 + j] == i[j]);
        assert(forall|j: int| 0 <= j < 8 ==> b[9 + j] == k[j]);
        assert(b[1] == i[0] && b[2] == i[1] && b[3] == i[2] && b[4] == i[3] && b[5] == i[4]
            && b[6] == i[5] && b[7] == i[6] && b[8] == i[7]);
        assert(b[9] == k[0] && b[10] == k[1] && b[11] == k[2] && b[12] == k[3] && b[13] == k[4]
            && b[14] == k[5] && b[15] == k[6] && b[16] == k[7]);
        assert(le_u64_at(b, 1) == le_u64_at(i, 0));
        assert(le_u64_at(b, 9) == le_u64_at(k, 0));
    }

    /// Two buffers that hold the same seventeen bytes hold the same cell.
    pub proof fn lemma_same_bytes(a: Seq<u8>, i: int, b: Seq<u8>, j: int)
        requires
            0 <= i && i + SIZE <= a.len(),
            0 <= j && j + SIZE <= b.len(),
            a.subrange(i, i + SIZE) == b.subrange(j, j + SIZE),
        ensures
            Instance::at(a, i) == Instance::at(b, j),
    {
        let x = a.subrange(i, i + SIZE);
        let y = b.subrange(j, j + SIZE);
        assert(forall|d: int| 0 <= d < SIZE ==> a[i + d] == #[trigger] x[d]);
        assert(forall|d: int| 0 <= d < SIZE ==> b[j + d] == #[trigger] y[d]);
        assert(x[0] == y[0] && x[1] == y[1] && x[2] == y[2] && x[3] == y[3] && x[4] == y[4]
            && x[5] == y[5] && x[6] == y[6] && x[7] == y[7] && x[8] == y[8] && x[9] == y[9]
            && x[10] == y[10] && x[11] == y[11] && x[12] == y[12] && x[13] == y[13] && x[14]
            == y[14] && x[15] == y[15] && x[16] == y[16]);
        assert(a[i + 0] == b[j + 0]);
        assert(a[i + 1] == b[j + 1] && a[i + 2] == b[j + 2] && a[i + 3] == b[j + 3] && a[i + 4]
            == b[j + 4] && a[i + 5] == b[j + 5] && a[i + 6] == b[j + 6] && a[i + 7] == b[j + 7]
            && a[i + 8] == b[j + 8]);
        assert(a[i + 9] == b[j + 9] && a[i + 10] == b[j + 10] && a[i + 11] == b[j + 11] && a[i
            + 12] == b[j + 12] && a[i + 13] == b[j + 13] && a[i + 14] == b[j + 14] && a[i + 15]
            == b[j + 15] && a[i + 16] == b[j + 16]);
    }

    /// A cell without a stored key is written with zero bytes in the key's place.
    pub proof fn lemma_no_key(b: Seq<u8>, off: int, c: Instance)
        requires
            0 <= off,
            off + SIZE <= b.len(),
            c.string_key == 0,
            b.subrange(off, off + SIZE) == c.bytes(),
        ensures
            zero_inside(b, off + 9, off + SIZE),
    {
        lemma_zero_words(b, off);
        let k = le_bytes_u64(0);
        let x = b.subrange(off, off + SIZE);
        assert forall|i: int| off + 9 <= i < off + SIZE implies b[i] == 0 by {
            assert(b[i] == x[i - off]);
            assert(c.bytes()[i - off] == k[i - off - 9]);
        }
    }

    /// Seventeen zero bytes hold the vacant cell, and the vacant cell is
    /// written as seventeen zero bytes.
    pub proof fn lemma_vacant(b: Seq<u8>, off: int)
        ensures
            zero_inside(b, off, off + SIZE) ==> Instance::at(b, off) == Instance::vacant(),
            zero_inside(Instance::vacant().bytes(), 0, SIZE as int),
    {
        lemma_zero_words(b, off + 1);
        lemma_zero_words(b, off + 9);
        if zero_inside(b, off, off + SIZE) {
            assert(b[off] == 0);
            assert(zero_inside(b, off + 1, off + 9));
            assert(zero_inside(b, off + 9, off + 17));
        }
    }
}

} // verus!
