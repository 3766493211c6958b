//! The records of a buffer: the root header, the table header and the table
//! block, with the arithmetic that leads from a key to a cell.
//!
//! A buffer starts with the root header. A table block is a table header
//! followed by `2^bits` cells; all blocks of one buffer have the same size.

use crate::cell;
use crate::codec::{
    get_u32, get_u64, le_bytes_u32, le_bytes_u64, le_u32_at, le_u64_at, patched, put_u32,
    put_u64, same_inside, same_outside, zero_inside,
};
use vstd::prelude::*;
use vstd::std_specs::convert::FromSpecImpl;

verus! {

pub type TypeSize = u32;

/// The number of bytes of the root header.
pub const ROOT_SIZE: usize = 24;

/// The number of bytes of a table header.
pub const TABLE_HEADER_SIZE: usize = 16;

/// The largest number of key bits that one table may consume.
pub const MAX_BITS: u8 = 16;

/// The number of bits of a key.
pub const KEY_BITS: usize = 64;

/// The kinds of record that a type tag tells apart.
#[derive(PartialEq, Eq, Structural, Debug, Clone, Copy)]
pub enum Type {
    /// Not explicitly used, but a consequence of zero-initialization.
    Empty,
    Root,
    Table,
    String,
    Unknown,
}

impl Type {
    /// The kind that the type tag `val` stands for.
    pub open spec fn of(val: TypeSize) -> Type {
        if val == 0 {
            Type::Empty
        } else if val == 1 {
            Type::Root
        } else if val == 2 {
            Type::Table
        } else if val == 3 {
            Type::String
        } else {
            Type::Unknown
        }
    }

    /// The type tag that stands for this kind.
    pub open spec fn spec_code(self) -> TypeSize {
        match self {
            Type::Empty => 0,
            Type::Root => 1,
            Type::Table => 2,
            Type::String => 3,
            Type::Unknown => 255,
        }
    }

    /// The type tag that stands for this kind.
    #[verifier::when_used_as_spec(spec_code)]
    pub fn code(self) -> (t: TypeSize)
        ensures
            t == self.spec_code(),
            Type::of(t) == self,
    {
        match self {
            Type::Empty => 0,
            Type::Root => 1,
            Type::Table => 2,
            Type::String => 3,
            Type::Unknown => 255,
        }
    }
}

impl From<TypeSize> for Type {
    fn from(val: TypeSize) -> (r: Type) {
        if val == Type::Empty.code() {
            return Type::Empty;
        }
        if val == Type::Root.code() {
            return Type::Root;
        }
        if val == Type::Table.code() {
            return Type::Table;
        }
        if val == Type::String.code() {
            return Type::String;
        }
        Type::Unknown
    }
}

impl FromSpecImpl<TypeSize> for Type {
    open spec fn obeys_from_spec() -> bool {
        true
    }

    open spec fn from_spec(val: TypeSize) -> Type {
        Type::of(val)
    }
}

/// The number of cells of a table that consumes `bits` bits of a key.
pub open spec fn fanout(bits: u8) -> int {
    (1u64 << (bits as u64)) as int
}

/// The number of bytes of a table block: the header and its cells.
pub open spec fn block_size(bits: u8) -> int {
    TABLE_HEADER_SIZE + cell::SIZE * fanout(bits)
}

/// The low `bits` bits of `key`: the number of the cell that `key` selects.
pub open spec fn slot_index(key: u64, bits: u8) -> u64 {
    key & (((1u64 << (bits as u64)) - 1) as u64)
}

/// What is left of `key` once its low `bits` bits are consumed.
pub open spec fn advance(key: u64, bits: u8) -> u64 {
    key >> (bits as u64)
}

/// What is left of `remaining` key bits once `bits` are consumed; never below zero.
pub open spec fn decrement_remaining(remaining: int, bits: u8) -> int {
    if remaining < bits {
        0
    } else {
        remaining - bits
    }
}

/// Within the permitted range a table has between one and 65536 cells, and
/// a key always selects one of them.
pub proof fn lemma_fanout(bits: u8)
    requires
        bits <= MAX_BITS,
    ensures
        1 <= fanout(bits) <= 65536,
        block_size(bits) <= 1114128,
        forall|key: u64| 0 <= #[trigger] slot_index(key, bits) < fanout(bits),
{
    let b = bits as u64;
    assert(1 <= (1u64 << b) <= 65536) by (bit_vector)
        requires
            b <= 16,
    ;
    assert forall|key: u64| 0 <= #[trigger] slot_index(key, bits) < fanout(bits) by {
        assert(key & (((1u64 << b) - 1) as u64) < (1u64 << b)) by (bit_vector)
            requires
                b <= 16,
        ;
    }
}

/// The root header, as plain values. It takes the first bytes of a buffer:
/// the type tag, four bytes of padding, and two offsets of eight bytes each.
#[derive(PartialEq, Eq, Structural, Debug, Clone, Copy)]
pub struct Root {
    pub htype: TypeSize,
    /// Where the root table starts; zero while nothing was inserted.
    pub root_table_offset: usize,
    /// Where the strings start.
    pub string_offset: usize,
}

impl Root {
    /// The root header that the first bytes of `b` hold.
    pub open spec fn at(b: Seq<u8>) -> Root {
        Root {
            htype: le_u32_at(b, 0),
            root_table_offset: le_u64_at(b, 8) as usize,
            string_offset: le_u64_at(b, 16) as usize,
        }
    }

    /// The buffer `b` with the three fields of this header written at its start.
    pub open spec fn stored(self, b: Seq<u8>) -> Seq<u8> {
        patched(
            patched(
                patched(b, 0, le_bytes_u32(self.htype)),
                8,
                le_bytes_u64(self.root_table_offset as u64),
            ),
            16,
            le_bytes_u64(self.string_offset as u64),
        )
    }

    pub fn set_type(&mut self, t: Type)
        ensures
            *final(self) == (Root { htype: t.spec_code(), ..*old(self) }),
    {
        self.htype = t.code();
    }

    pub fn set_table_offset(&mut self, offset: usize)
        ensures
            *final(self) == (Root { root_table_offset: offset, ..*old(self) }),
    {
        self.root_table_offset = offset;
    }

    pub fn set_string_offset(&mut self, offset: usize)
        ensures
            *final(self) == (Root { string_offset: offset, ..*old(self) }),
    {
        self.string_offset = offset;
    }

    /// Reads the root header from the start of `bytes`.
    pub fn read(bytes: &[u8]) -> (root: Root)
        requires
            bytes@.len() >= ROOT_SIZE,
        ensures
            root == Root::at(bytes@),
    {
        let htype = get_u32(bytes, 0);
        let root_table_offset = get_u64(bytes, 8);
        let string_offset = get_u64(bytes, 16);
        Root {
            htype,
            root_table_offset: root_table_offset as usize,
            string_offset: string_offset as usize,
        }
    }

    /// Writes the three fields of this header at the start of `buf`, and
    /// leaves the padding as it is.
    pub fn write(&self, buf: &mut Vec<u8>)
        requires
            old(buf)@.len() >= ROOT_SIZE,
        ensures
            final(buf)@ == self.stored(old(buf)@),
            Root::at(final(buf)@) == *self,
            same_outside(old(buf)@, final(buf)@, 0, ROOT_SIZE as int),
            same_inside(old(buf)@, final(buf)@, 4, 8),
    {
        put_u32(buf, 0, self.htype);
        put_u64(buf, 8, self.root_table_offset as u64);
        put_u64(buf, 16, self.string_offset as u64);
    }
}

/// A header that was written is the header that is read.
pub proof fn lemma_stored_root(b: Seq<u8>, root: Root)
    requires
        b.len() >= ROOT_SIZE,
    ensures
        Root::at(root.stored(b)) == root,
        root.stored(b).len() == b.len(),
        same_outside(b, root.stored(b), 0, ROOT_SIZE as int),
        same_inside(b, root.stored(b), 4, 8),
{
    crate::codec::lemma_u32_round_trip(root.htype);
    crate::codec::lemma_u64_round_trip(root.root_table_offset as u64);
    crate::codec::lemma_u64_round_trip(root.string_offset as u64);
    let w = root.stored(b);
    let h = le_bytes_u32(root.htype);
    let t = le_bytes_u64(root.root_table_offset as u64);
    let o = le_bytes_u64(root.string_offset as u64);
    assert(w[0] == h[0] && w[1] == h[1] && w[2] == h[2] && w[3] == h[3]);
    assert(w[8] == t[0] && w[9] == t[1] && w[10] == t[2] && w[11] == t[3] && w[12] == t[4]
        && w[13] == t[5] && w[14] == t[6] && w[15] == t[7]);
    assert(w[16] == o[0] && w[17] == o[1] && w[18] == o[2] && w[19] == o[3] && w[20] == o[4]
        && w[21] == o[5] && w[22] == o[6] && w[23] == o[7]);
}

/// The header of a table block, as plain values. It takes sixteen bytes: the
/// type tag, four bytes of padding, the number of bits, and seven bytes of
/// padding. The cells follow it.
#[derive(PartialEq, Eq, Structural, Debug, Clone, Copy)]
pub struct TableHeader {
    pub htype: TypeSize,
    /// Number of bits in this table.
    pub bits: u8,
}

impl TableHeader {
    /// The table header that the bytes of `b` from `off` on hold.
    pub open spec fn at(b: Seq<u8>, off: int) -> TableHeader {
        TableHeader { htype: le_u32_at(b, off), bits: b[off + 8] }
    }

    /// Marks this header as a table of `bits` bits.
    pub fn set_bits(&mut self, bits: u8)
        requires
            bits <= 64,
        ensures
            *final(self) == (TableHeader { htype: 2, bits: bits }),
    {
        self.htype = Type::Table.code();
        self.bits = bits;
    }

    /// Reads the table header that starts at offset `off` of `bytes`.
    pub fn read(bytes: &[u8], off: usize) -> (header: TableHeader)
        requires
            off + TABLE_HEADER_SIZE <= bytes@.len(),
        ensures
            header == TableHeader::at(bytes@, off as int),
    {
        let end: usize = bytes.len();
        let htype = get_u32(bytes, off);
        let bits = bytes[off + 8];
        TableHeader { htype, bits }
    }

    /// Writes the two fields of this header into `buf` from `off` on, and
    /// leaves the padding as it is.
    pub fn write(&self, buf: &mut Vec<u8>, off: usize)
        requires
            off + TABLE_HEADER_SIZE <= old(buf)@.len(),
        ensures
            final(buf)@ == patched(old(buf)@, off as int, le_bytes_u32(self.htype)).update(
                off + 8,
                self.bits,
            ),
            TableHeader::at(final(buf)@, off as int) == *self,
            same_outside(old(buf)@, final(buf)@, off as int, off + TABLE_HEADER_SIZE),
            same_inside(old(buf)@, final(buf)@, off + 4, off + 8),
            same_inside(old(buf)@, final(buf)@, off + 9, off + TABLE_HEADER_SIZE),
    {
        let end: usize = buf.len();
        put_u32(buf, off, self.htype);
        buf[off + 8] = self.bits;
    }

    /// This header marks a table whose number of bits is within the permitted range.
    pub open spec fn valid(self) -> bool {
        &&& self.htype == 2
        &&& 1 <= self.bits <= MAX_BITS
    }
}

/// The bytes of a table block of `2^bits` empty cells: the type tag of a
/// table, the number of bits, and zero everywhere else.
pub open spec fn fresh_table(bits: u8) -> Seq<u8> {
    Seq::new(
        block_size(bits) as nat,
        |i: int|
            if 0 <= i < 4 {
                le_bytes_u32(2)[i]
            } else if i == 8 {
                bits
            } else {
                0u8
            },
    )
}

/// Where cell number `index` of the table block at `base` starts.
pub open spec fn cell_offset(base: int, index: int) -> int {
    base + TABLE_HEADER_SIZE + cell::SIZE * index
}

/// A complete table block with a valid header starts at offset `base` of `b`.
pub open spec fn table_at(b: Seq<u8>, base: int) -> bool {
    &&& 0 <= base
    &&& base + TABLE_HEADER_SIZE <= b.len()
    &&& TableHeader::at(b, base).valid()
    &&& base + block_size(b[base + 8]) <= b.len()
}

/// A read-only view of one table block: its header, and the bytes of its cells.
pub struct Table<'a> {
    pub header: TableHeader,
    pub cells: &'a [u8],
}

impl<'a> Table<'a> {
    /// The header is valid and the cells are as many as it says.
    pub open spec fn wf(&self) -> bool {
        &&& self.header.valid()
        &&& self.cells@.len() == cell::SIZE * fanout(self.header.bits)
    }

    /// Overlays a table on top of this slice, which starts with a table block.
    pub fn overlay(bytes: &'a [u8]) -> (table: Table<'a>)
        requires
            table_at(bytes@, 0),
        ensures
            table.wf(),
            table.header == TableHeader::at(bytes@, 0),
            table.cells@ == bytes@.subrange(
                TABLE_HEADER_SIZE as int,
                block_size(table.header.bits),
            ),
    {
        let header = TableHeader::read(bytes, 0);
        proof {
            lemma_fanout(header.bits);
        }
        let elems: u64 = 1u64 << (header.bits as u64);
        let size: usize = (elems as usize) * cell::SIZE;
        let cells = vstd::slice::slice_subrange(
            bytes,
            TABLE_HEADER_SIZE,
            TABLE_HEADER_SIZE + size,
        );
        Table { header, cells }
    }

    /// The cell with number `index`.
    pub fn cell(&self, index: usize) -> (c: cell::Instance)
        requires
            self.wf(),
            index < fanout(self.header.bits),
        ensures
            c == cell::Instance::at(self.cells@, cell::SIZE * index),
    {
        proof {
            lemma_fanout(self.header.bits);
        }
        cell::Instance::read(self.cells, index * cell::SIZE)
    }

    /// The number of the cell that `key` selects: its low bits.
    pub fn index(&self, key: u64) -> (slot: usize)
        requires
            self.header.bits <= MAX_BITS,
        ensures
            slot == slot_index(key, self.header.bits),
            slot < fanout(self.header.bits),
    {
        slot_of(self.header.bits, key)
    }

    /// What is left of `key` below this table.
    pub fn next_key(&self, key: u64) -> (next: u64)
        requires
            self.header.bits < 64,
        ensures
            next == advance(key, self.header.bits),
    {
        key >> (self.header.bits as u64)
    }

    /// The number of key bits that are left below this table.
    pub fn decrement_bits(&self, remaining: usize) -> (left: usize)
        ensures
            left == decrement_remaining(remaining as int, self.header.bits),
    {
        let bits_usize: usize = self.header.bits as usize;
        if remaining < bits_usize {
            return 0;
        }
        remaining - bits_usize
    }
}

fn slot_of(bits: u8, key: u64) -> (slot: usize)
    requires
        bits <= MAX_BITS,
    ensures
        slot == slot_index(key, bits),
        slot < fanout(bits),
{
    let b: u64 = bits as u64;
    proof {
        lemma_fanout(bits);
        assert(1 <= (1u64 << b)) by (bit_vector)
            requires
                b <= 16,
        ;
    }
    let bitmask: u64 = (1u64 << b) - 1;
    let index: u64 = key & bitmask;
    assert(index == slot_index(key, bits));
    index as usize
}

/// A table block inside a growing buffer, named by the offset at which it
/// starts. The buffer is handed to each operation, so that it can grow
/// between two of them.
pub struct TableMut {
    pub header: TableHeader,
    pub base: usize,
}

impl TableMut {
    /// This handle names a valid table block of `b`.
    pub open spec fn describes(&self, b: Seq<u8>) -> bool {
        &&& table_at(b, self.base as int)
        &&& self.header == TableHeader::at(b, self.base as int)
    }

    /// Initializes a table for `2^bits` entries in the block of `bytes` that
    /// starts at `base`: every byte of the block is cleared, then the header
    /// is written.
    pub fn init(bits: u8, bytes: &mut Vec<u8>, base: usize) -> (table: TableMut)
        requires
            1 <= bits <= MAX_BITS,
            base + block_size(bits) <= old(bytes)@.len(),
        ensures
            final(bytes)@ == patched(old(bytes)@, base as int, fresh_table(bits)),
            table.base == base,
            table.header == (TableHeader { htype: 2, bits: bits }),
            table.describes(final(bytes)@),
            same_outside(old(bytes)@, final(bytes)@, base as int, base + block_size(bits)),
            zero_inside(final(bytes)@, base + 4, base + 8),
            zero_inside(final(bytes)@, base + 9, base + block_size(bits)),
    {
        proof {
            lemma_fanout(bits);
        }
        let total: usize = bytes.len();
        let elems: u64 = 1u64 << (bits as u64);
        let size: usize = TABLE_HEADER_SIZE + (elems as usize) * cell::SIZE;
        let end: usize = base + size;
        let mut i: usize = base;
        while i < end
            invariant
                base <= i <= end,
                end <= bytes@.len(),
                same_outside(old(bytes)@, bytes@, base as int, end as int),
                zero_inside(bytes@, base as int, i as int),
            decreases end - i,
        {
            bytes[i] = 0;
            i = i + 1;
        }
        let mut header = TableHeader { htype: 0, bits: 0 };
        header.set_bits(bits);
        header.write(bytes, base);
        proof {
            assert(bytes@ =~= patched(old(bytes)@, base as int, fresh_table(bits)));
        }
        TableMut { header, base }
    }

    /// Overlays a table on top of the block of `bytes` that starts at `base`.
    pub fn overlay_mut(bytes: &[u8], base: usize) -> (table: TableMut)
        requires
            table_at(bytes@, base as int),
        ensures
            table.base == base,
            table.describes(bytes@),
    {
        let header = TableHeader::read(bytes, base);
        TableMut { header, base }
    }

    /// The cell with number `index`, as `bytes` holds it.
    pub fn cell(&self, bytes: &[u8], index: usize) -> (c: cell::Instance)
        requires
            self.describes(bytes@),
            index < fanout(self.header.bits),
        ensures
            c == cell::Instance::at(bytes@, cell_offset(self.base as int, index as int)),
    {
        proof {
            lemma_fanout(self.header.bits);
        }
        let total: usize = bytes.len();
        cell::Instance::read(bytes, self.base + TABLE_HEADER_SIZE + index * cell::SIZE)
    }

    /// Stores `c` as the cell with number `index`.
    pub fn cell_mut(&self, bytes: &mut Vec<u8>, index: usize, c: &cell::Instance)
        requires
            self.describes(old(bytes)@),
            index < fanout(self.header.bits),
        ensures
            final(bytes)@ == patched(
                old(bytes)@,
                cell_offset(self.base as int, index as int),
                c.bytes(),
            ),
            cell::Instance::at(final(bytes)@, cell_offset(self.base as int, index as int)) == *c,
            final(bytes)@.subrange(
                cell_offset(self.base as int, index as int),
                cell_offset(self.base as int, index as int) + cell::SIZE,
            ) == c.bytes(),
            same_outside(
                old(bytes)@,
                final(bytes)@,
                cell_offset(self.base as int, index as int),
                cell_offset(self.base as int, index as int) + cell::SIZE,
            ),
            self.describes(final(bytes)@),
    {
        proof {
            lemma_fanout(self.header.bits);
        }
        let total: usize = bytes.len();
        c.write(bytes, self.base + TABLE_HEADER_SIZE + index * cell::SIZE);
    }

    /// The number of the cell that `key` selects: its low bits.
    pub fn index(&self, key: u64) -> (slot: usize)
        requires
            self.header.bits <= MAX_BITS,
        ensures
            slot == slot_index(key, self.header.bits),
            slot < fanout(self.header.bits),
    {
        slot_of(self.header.bits, key)
    }

    /// What is left of `key` below this table.
    pub fn next_key(&self, key: u64) -> (next: u64)
        requires
            self.header.bits < 64,
        ensures
            next == advance(key, self.header.bits),
    {
        key >> (self.header.bits as u64)
    }

    /// The number of key bits that are left below this table.
    pub fn decrement_bits(&self, remaining: usize) -> (left: usize)
        ensures
            left == decrement_remaining(remaining as int, self.header.bits),
    {
        let bits_usize: usize = self.header.bits as usize;
        if remaining < bits_usize {
            return 0;
        }
        remaining - bits_usize
    }
}

/// The header of a string record: a type tag and a length.
pub struct String {
    htype: u32,
    len: usize,
}

/// A record that holds a type tag and nothing else.
pub struct Empty {
    htype: u32,
}

} // verus!
