//! Strings inside a buffer: the pool of interned strings, and the view of
//! one string that ends with a zero byte.

use crate::codec::{patched, same_outside};
use vstd::hash_map::StringHashMap;
use vstd::prelude::*;
use vstd::utf8::{decode_utf8, encode_utf8, encode_utf8_decode_utf8, valid_utf8};

verus! {

/// `end` is the place of the first zero byte of `b` at or after `start`.
pub open spec fn nul_at(b: Seq<u8>, start: int, end: int) -> bool {
    &&& 0 <= start <= end < b.len()
    &&& b[end] == 0
    &&& forall|i: int| start <= i < end ==> b[i] != 0
}

/// Some zero byte of `b` stands at or after `start`.
pub open spec fn has_nul(b: Seq<u8>, start: int) -> bool {
    exists|end: int| nul_at(b, start, end)
}

/// The place of the first zero byte of `b` at or after `start`.
pub open spec fn nul_pos(b: Seq<u8>, start: int) -> int {
    choose|end: int| nul_at(b, start, end)
}

/// The bytes of `b` from `start` up to the first zero byte, which is left out.
pub open spec fn c_str(b: Seq<u8>, start: int) -> Seq<u8> {
    b.subrange(start, nul_pos(b, start))
}

/// What the pool holds for the string `v`: its UTF-8 bytes and a zero byte.
pub open spec fn entry(v: Seq<char>) -> Seq<u8> {
    encode_utf8(v).push(0u8)
}

/// The pool that holds `values`, each followed by a zero byte, in their order.
pub open spec fn packed(values: Seq<Seq<char>>) -> Seq<u8>
    decreases values.len(),
{
    if values.len() == 0 {
        Seq::<u8>::empty()
    } else {
        packed(values.drop_last()) + entry(values.last())
    }
}

/// Where the entry of `v` stands in the pool that holds `values`; for a
/// string that is not among them, where it would come to stand: the end.
pub open spec fn offset_of(values: Seq<Seq<char>>, v: Seq<char>) -> nat
    decreases values.len(),
{
    if values.len() == 0 {
        0
    } else if values.drop_last().contains(v) {
        offset_of(values.drop_last(), v)
    } else if values.last() == v {
        packed(values.drop_last()).len()
    } else {
        packed(values).len()
    }
}

/// The offset that an insert of `v` records for its string.
pub open spec fn place_of(values: Seq<Seq<char>>, v: Seq<char>) -> usize {
    #[verifier::truncate]
    (offset_of(values, v) as usize)
}

/// A string that the pool does not hold would come to stand at its end,
/// and a string that it holds stays where it is when another is added.
pub proof fn lemma_offset_of(values: Seq<Seq<char>>, v: Seq<char>, more: Seq<char>)
    ensures
        !values.contains(v) ==> offset_of(values, v) == packed(values).len(),
        values.contains(v) ==> offset_of(values.push(more), v) == offset_of(values, v),
        !values.contains(v) ==> offset_of(values.push(v), v) == packed(values).len(),
        packed(values.push(more)) == packed(values) + entry(more),
{
    assert(values.push(more).drop_last() =~= values);
    assert(values.push(v).drop_last() =~= values);
    if values.len() > 0 && !values.contains(v) {
        if values.drop_last().contains(v) {
            let i = choose|i: int| 0 <= i < values.drop_last().len() && values.drop_last()[i] == v;
            assert(values[i] == v);
        }
        assert(values[values.len() - 1] == values.last());
    }
}

/// The entry of `v` stands in `pool` at offset `off`.
pub open spec fn holds_at(pool: Seq<u8>, off: int, v: Seq<char>) -> bool {
    &&& 0 <= off
    &&& off + entry(v).len() <= pool.len()
    &&& pool.subrange(off, off + entry(v).len()) == entry(v)
}

/// The first zero byte is found once: no two places are it.
pub proof fn lemma_nul_unique(b: Seq<u8>, start: int, end: int)
    requires
        nul_at(b, start, end),
    ensures
        has_nul(b, start),
        nul_pos(b, start) == end,
{
    let e = nul_pos(b, start);
    assert(nul_at(b, start, e));
    if e < end {
        assert(b[e] != 0);
    }
    if end < e {
        assert(b[end] != 0);
    }
}

/// Where a zero byte stands at `bound`, a first one stands at or before it.
pub proof fn lemma_nul_before(b: Seq<u8>, start: int, bound: int)
    requires
        0 <= start <= bound < b.len(),
        b[bound] == 0,
    ensures
        has_nul(b, start),
        start <= nul_pos(b, start) <= bound,
    decreases bound - start,
{
    if b[start] == 0 {
        assert(nul_at(b, start, start));
        lemma_nul_unique(b, start, start);
    } else {
        lemma_nul_before(b, start + 1, bound);
        let e = nul_pos(b, start + 1);
        assert(nul_at(b, start + 1, e));
        assert(nul_at(b, start, e));
        lemma_nul_unique(b, start, e);
    }
}

/// A string that ends within a part of the buffer is the string that the
/// part alone holds.
pub proof fn lemma_c_str_within(a: Seq<u8>, i: int, n: int)
    requires
        0 <= i && 0 < n,
        i + n <= a.len(),
        a[i + n - 1] == 0,
    ensures
        has_nul(a, i),
        has_nul(a.subrange(i, i + n), 0),
        c_str(a, i) == c_str(a.subrange(i, i + n), 0),
        nul_pos(a, i) == i + nul_pos(a.subrange(i, i + n), 0),
        nul_pos(a, i) < i + n,
{
    let x = a.subrange(i, i + n);
    assert(x[n - 1] == a[i + n - 1]);
    lemma_nul_before(x, 0, n - 1);
    let e = nul_pos(x, 0);
    assert(nul_at(x, 0, e));
    assert(a[i + e] == x[e]);
    assert forall|k: int| i <= k < i + e implies a[k] != 0 by {
        assert(a[k] == x[k - i]);
    }
    assert(nul_at(a, i, i + e));
    lemma_nul_unique(a, i, i + e);
    assert(a.subrange(i, i + e) =~= x.subrange(0, e));
}

/// The entry of a string is what stands in a pool that holds it.
pub proof fn lemma_held_c_str(pool: Seq<u8>, off: int, v: Seq<char>)
    requires
        holds_at(pool, off, v),
    ensures
        has_nul(pool, off),
        has_nul(entry(v), 0),
        c_str(pool, off) == c_str(entry(v), 0),
        nul_pos(pool, off) < off + entry(v).len(),
{
    let n = entry(v).len() as int;
    assert(pool.subrange(off, off + n)[n - 1] == pool[off + n - 1]);
    lemma_c_str_within(pool, off, n);
}

/// The string `v` up to its first zero character, which is left out.
pub open spec fn cut(v: Seq<char>) -> Seq<char>
    decreases v.len(),
{
    if v.len() == 0 || v[0] == '\0' {
        Seq::<char>::empty()
    } else {
        seq![v[0]] + cut(v.drop_first())
    }
}

/// A string without a zero character is cut nowhere.
pub proof fn lemma_cut_plain(v: Seq<char>)
    requires
        forall|i: int| 0 <= i < v.len() ==> v[i] != '\0',
    ensures
        cut(v) == v,
    decreases v.len(),
{
    if v.len() > 0 {
        let rest = v.drop_first();
        assert forall|i: int| 0 <= i < rest.len() implies rest[i] != '\0' by {
            assert(rest[i] == v[i + 1]);
        }
        lemma_cut_plain(rest);
        assert(seq![v[0]] + rest =~= v);
    }
}

/// What the pool holds for a string reads, up to its first zero byte, as
/// the string up to its first zero character.
pub proof fn lemma_entry_cut(v: Seq<char>)
    ensures
        has_nul(entry(v), 0),
        c_str(entry(v), 0) == encode_utf8(cut(v)),
        valid_utf8(c_str(entry(v), 0)),
        decode_utf8(c_str(entry(v), 0)) == cut(v),
    decreases v.len(),
{
    let whole = entry(v);
    if v.len() == 0 {
        assert(nul_at(whole, 0, 0));
        lemma_nul_unique(whole, 0, 0);
        assert(whole.subrange(0, 0) =~= encode_utf8(cut(v)));
    } else {
        let c = v[0] as u32;
        let head = vstd::utf8::encode_scalar(c);
        let rest = v.drop_first();
        vstd::utf8::char_is_scalar(v[0]);
        assert(encode_utf8(v) == head + encode_utf8(rest));
        assert(whole =~= head + entry(rest));
        if v[0] == '\0' {
            assert(c == 0);
            assert((0u32 & 0x7F) as u8 == 0) by (bit_vector);
            assert(head[0] == 0);
            assert(whole[0] == head[0]);
            assert(nul_at(whole, 0, 0));
            lemma_nul_unique(whole, 0, 0);
            assert(whole.subrange(0, 0) =~= encode_utf8(cut(v)));
        } else {
            let one = seq![v[0]];
            assert(one.drop_first() =~= Seq::<char>::empty());
            assert(encode_utf8(Seq::<char>::empty()) =~= Seq::<u8>::empty());
            assert(encode_utf8(one) == head + encode_utf8(one.drop_first()));
            assert(encode_utf8(one) =~= head);
            lemma_no_zero_byte(one);
            lemma_entry_cut(rest);
            let below = entry(rest);
            let e = nul_pos(below, 0);
            assert(nul_at(below, 0, e));
            let n = head.len() as int;
            assert(whole[n + e] == below[e]);
            assert forall|i: int| 0 <= i < n + e implies whole[i] != 0 by {
                if i < n {
                    assert(whole[i] == head[i]);
                } else {
                    assert(whole[i] == below[i - n]);
                }
            }
            assert(nul_at(whole, 0, n + e));
            lemma_nul_unique(whole, 0, n + e);
            assert(whole.subrange(0, n + e) =~= head + below.subrange(0, e));
            let kept = cut(v);
            assert(kept == one + cut(rest));
            assert(kept[0] == v[0]);
            assert(kept.drop_first() =~= cut(rest));
            assert(encode_utf8(kept) == head + encode_utf8(cut(rest)));
        }
    }
    vstd::utf8::encode_utf8_valid_utf8(cut(v));
    encode_utf8_decode_utf8(cut(v));
}

/// The UTF-8 bytes of a string without a zero character hold no zero byte.
pub proof fn lemma_no_zero_byte(v: Seq<char>)
    requires
        forall|i: int| 0 <= i < v.len() ==> v[i] != '\0',
    ensures
        forall|j: int| 0 <= j < encode_utf8(v).len() ==> encode_utf8(v)[j] != 0,
    decreases v.len(),
{
    if v.len() > 0 {
        let c = v[0] as u32;
        let rest = v.drop_first();
        assert forall|i: int| 0 <= i < rest.len() implies rest[i] != '\0' by {
            assert(rest[i] == v[i + 1]);
        }
        lemma_no_zero_byte(rest);
        assert(c != 0) by {
            vstd::utf8::char_u32_cast(v[0], c);
            vstd::utf8::char_u32_cast('\0', 0u32);
        }
        vstd::utf8::char_is_scalar(v[0]);
        let head = vstd::utf8::encode_scalar(c);
        assert(c != 0 ==> (c & 0x7F) as u8 != 0 || c > 0x7F) by (bit_vector);
        assert(0xC0u8 | ((c >> 6) & 0x1F) as u8 != 0) by (bit_vector);
        assert(0xE0u8 | ((c >> 12) & 0x0F) as u8 != 0) by (bit_vector);
        assert(0xF0u8 | ((c >> 18) & 0x7) as u8 != 0) by (bit_vector);
        assert(0x80u8 | (c & 0x3F) as u8 != 0) by (bit_vector);
        assert(0x80u8 | ((c >> 6) & 0x3F) as u8 != 0) by (bit_vector);
        assert(0x80u8 | ((c >> 12) & 0x3F) as u8 != 0) by (bit_vector);
        assert(forall|j: int| 0 <= j < head.len() ==> head[j] != 0);
        let all = encode_utf8(v);
        assert(all == head + encode_utf8(rest));
        assert forall|j: int| 0 <= j < all.len() implies all[j] != 0 by {
            if j < head.len() {
                assert(all[j] == head[j]);
            } else {
                assert(all[j] == encode_utf8(rest)[j - head.len()]);
            }
        }
    }
}


/// `core::str::from_utf8`: the string slice over `bytes` where they are valid
/// UTF-8, and nothing where they are not.
#[verifier::external_body]
fn utf8_str<'a>(bytes: &'a [u8]) -> (r: Option<&'a str>)
    ensures
        r.is_some() == valid_utf8(bytes@),
        r matches Some(s) ==> encode_utf8(s@) == bytes@,
{
    match core::str::from_utf8(bytes) {
        Ok(s) => Some(s),
        Err(_) => None,
    }
}

/// Internally stores strings in a long sequence.  Same strings are deduped.
pub struct Intern {
    // The vector that encodes all strings.  Strings are UTF-8, with a zero
    // byte at the end of each.
    strings: Vec<u8>,
    // The seen strings and their respective offsets.  On a repeated insert,
    // no additional space is reserved for a string duplicate.
    seen: StringHashMap<usize>,
    // The seen strings, in the order in which they came first.
    order: Ghost<Seq<Seq<char>>>,
}

impl Intern {
    /// The bytes of the pool.
    pub closed spec fn pool(&self) -> Seq<u8> {
        self.strings@
    }

    /// The offset at which each interned string starts.
    pub closed spec fn offsets(&self) -> Map<Seq<char>, usize> {
        self.seen@
    }

    /// The interned strings, in the order in which they came first.
    pub closed spec fn values(&self) -> Seq<Seq<char>> {
        self.order@
    }

    /// The pool holds each interned string once, in the order of first
    /// arrival, and each recorded offset is where that string stands.
    pub open spec fn wf(&self) -> bool {
        &&& self.pool() == packed(self.values())
        &&& self.values().no_duplicates()
        &&& forall|v: Seq<char>| #[trigger]
            self.offsets().contains_key(v) <==> self.values().contains(v)
        &&& forall|v: Seq<char>| #[trigger]
            self.offsets().contains_key(v) ==> holds_at(self.pool(), self.offsets()[v] as int, v)
        &&& forall|v: Seq<char>| #[trigger]
            self.offsets().contains_key(v) ==> self.offsets()[v] == offset_of(self.values(), v)
    }

    pub fn new() -> (intern: Intern)
        ensures
            intern.wf(),
            intern.pool() == Seq::<u8>::empty(),
            intern.offsets() == Map::<Seq<char>, usize>::empty(),
            intern.values() == Seq::<Seq<char>>::empty(),
    {
        Intern { strings: Vec::new(), seen: StringHashMap::new(), order: Ghost(Seq::empty()) }
    }

    /// Add the string `s` to the string intern table: a string that was
    /// added before keeps its offset and the pool stays as it is, a new one
    /// goes to the end of the pool.
    pub fn add(&mut self, s: &str) -> (index: usize)
        requires
            old(self).wf(),
            !old(self).offsets().contains_key(s@) ==> old(self).pool().len() + entry(s@).len()
                <= usize::MAX,
        ensures
            final(self).wf(),
            index == offset_of(old(self).values(), s@),
            old(self).offsets().contains_key(s@) ==> {
                &&& index == old(self).offsets()[s@]
                &&& final(self).pool() == old(self).pool()
                &&& final(self).offsets() == old(self).offsets()
                &&& final(self).values() == old(self).values()
            },
            !old(self).offsets().contains_key(s@) ==> {
                &&& index == old(self).pool().len()
                &&& final(self).pool() == old(self).pool() + entry(s@)
                &&& final(self).offsets() == old(self).offsets().insert(s@, index)
                &&& final(self).values() == old(self).values().push(s@)
            },
    {
        let seen = self.seen.get(s);
        match seen {
            Some(index) => *index,
            None => {
                let index = self.strings.len();
                let new_index = String::required_len(s) + index;
                self.seen.insert(s.to_owned(), index);
                self.strings.resize(new_index, 0);
                String::init(s, &mut self.strings, index);
                proof {
                    let before = old(self).values();
                    let after = before.push(s@);
                    self.order@ = after;
                    assert(after.drop_last() =~= before);
                    assert(self.strings@ =~= old(self).strings@ + entry(s@));
                    assert(!old(self).offsets().contains_key(s@));
                    assert(!before.contains(s@));
                    lemma_offset_of(before, s@, s@);
                    assert forall|v: Seq<char>| #[trigger]
                        old(self).offsets().contains_key(v) implies offset_of(after, v)
                        == offset_of(before, v) by {
                        assert(before.contains(v));
                        lemma_offset_of(before, v, s@);
                    }
                    assert(self.offsets() == old(self).offsets().insert(s@, index));
                    assert forall|v: Seq<char>| #[trigger]
                        self.offsets().contains_key(v) <==> after.contains(v) by {
                        assert(old(self).offsets().contains_key(v) <==> before.contains(v));
                        if v == s@ {
                            assert(after[before.len() as int] == v);
                        } else if before.contains(v) {
                            let i = choose|i: int| 0 <= i < before.len() && before[i] == v;
                            assert(after[i] == v);
                        } else if after.contains(v) {
                            let i = choose|i: int| 0 <= i < after.len() && after[i] == v;
                            assert(before[i] == v);
                        }
                    }
                    assert forall|v: Seq<char>| #[trigger]
                        self.offsets().contains_key(v) implies holds_at(
                        self.pool(),
                        self.offsets()[v] as int,
                        v,
                    ) by {
                        if v == s@ {
                            assert(self.pool().subrange(
                                index as int,
                                index + entry(v).len(),
                            ) =~= entry(v));
                        } else {
                            let off = old(self).offsets()[v] as int;
                            assert(holds_at(old(self).pool(), off, v));
                            assert(self.pool().subrange(off, off + entry(v).len())
                                =~= old(self).pool().subrange(off, off + entry(v).len()));
                        }
                    }
                }
                index
            },
        }
    }

    /// The string that starts at offset `index` of the pool.
    pub fn get(&self, index: usize) -> (s: String<'_>)
        requires
            has_nul(self.pool(), index as int),
        ensures
            s.wf(),
            s.text() == c_str(self.pool(), index as int),
    {
        let rest = vstd::slice::slice_subrange(
            self.strings.as_slice(),
            index,
            self.strings.len(),
        );
        proof {
            lemma_c_str_suffix(self.strings@, index as int);
        }
        String::over(rest)
    }

    /// The number of bytes in the pool.
    pub fn len(&self) -> (n: usize)
        ensures
            n == self.pool().len(),
    {
        self.strings.len()
    }

    /// The bytes of the pool.
    pub fn into(self) -> (bytes: Vec<u8>)
        ensures
            bytes@ == self.pool(),
    {
        self.strings
    }
}

/// The string that starts at `start` is the one with which the rest of the
/// buffer from `start` on begins.
pub proof fn lemma_c_str_suffix(b: Seq<u8>, start: int)
    requires
        has_nul(b, start),
    ensures
        has_nul(b.subrange(start, b.len() as int), 0),
        c_str(b.subrange(start, b.len() as int), 0) == c_str(b, start),
        nul_pos(b.subrange(start, b.len() as int), 0) == nul_pos(b, start) - start,
{
    let e = nul_pos(b, start);
    assert(nul_at(b, start, e));
    let n = b.len() as int - start;
    let x = b.subrange(start, b.len() as int);
    assert(x[e - start] == b[e]);
    assert forall|k: int| 0 <= k < e - start implies x[k] != 0 by {
        assert(x[k] == b[start + k]);
    }
    assert(nul_at(x, 0, e - start));
    lemma_nul_unique(x, 0, e - start);
    assert(x.subrange(0, e - start) =~= b.subrange(start, e));
}

/// A reference to a string in a buffer: its bytes up to the zero byte that
/// ends it, that byte included.
pub struct String<'a> {
    content: &'a [u8],
}

impl<'a> String<'a> {
    /// The bytes of the string with the zero byte that ends it.
    pub closed spec fn bytes(&self) -> Seq<u8> {
        self.content@
    }

    /// The one zero byte is the last byte.
    pub open spec fn wf(&self) -> bool {
        nul_at(self.bytes(), 0, self.bytes().len() - 1)
    }

    /// The bytes of the string without the zero byte that ends it.
    pub open spec fn text(&self) -> Seq<u8> {
        self.bytes().drop_last()
    }

    /// Returns the number of bytes required to store `s`: which is the number
    /// of bytes needed for the content, plus another one for the NUL end.
    pub fn required_len(s: &str) -> (n: usize)
        requires
            entry(s@).len() <= usize::MAX,
        ensures
            n == entry(s@).len(),
    {
        s.len() + 1
    }

    /// Returns the content of the string, with the zero byte that ends it.
    pub fn content(&self) -> (bytes: &'a [u8])
        ensures
            bytes@ == self.bytes(),
    {
        self.content
    }

    /// The string as text.
    pub fn to_str(&self) -> (s: &'a str)
        requires
            self.wf(),
            valid_utf8(self.text()),
        ensures
            s@ == decode_utf8(self.text()),
            encode_utf8(s@) == self.text(),
    {
        let text = vstd::slice::slice_subrange(self.content, 0, self.content.len() - 1);
        assert(text@ =~= self.text());
        match utf8_str(text) {
            Some(s) => {
                proof {
                    encode_utf8_decode_utf8(s@);
                }
                s
            },
            None => "",
        }
    }

    /// The string as text, where its bytes are valid UTF-8.
    pub fn try_to_str(&self) -> (found: Option<&'a str>)
        requires
            self.wf(),
        ensures
            found is Some == valid_utf8(self.text()),
            found matches Some(s) ==> s@ == decode_utf8(self.text()),
    {
        let text = vstd::slice::slice_subrange(self.content, 0, self.content.len() - 1);
        assert(text@ =~= self.text());
        match utf8_str(text) {
            Some(s) => {
                proof {
                    encode_utf8_decode_utf8(s@);
                }
                Some(s)
            },
            None => None,
        }
    }

    /// The string as owned text.
    pub fn to_string(&self) -> (s: std::string::String)
        requires
            self.wf(),
            valid_utf8(self.text()),
        ensures
            s@ == decode_utf8(self.text()),
    {
        self.to_str().to_owned()
    }

    /// Initializes a string into the given buffer at offset `at`: the bytes
    /// of `src`, then a zero byte.  The buffer must have enough space.
    pub fn init(src: &str, buffer: &mut Vec<u8>, at: usize)
        requires
            at + entry(src@).len() <= old(buffer)@.len(),
        ensures
            final(buffer)@ == patched(old(buffer)@, at as int, entry(src@)),
            same_outside(old(buffer)@, final(buffer)@, at as int, at + entry(src@).len()),
            holds_at(final(buffer)@, at as int, src@),
    {
        let total: usize = buffer.len();
        let str_bytes = src.as_bytes();
        let n: usize = str_bytes.len();
        let mut i: usize = 0;
        while i < n
            invariant
                i <= n,
                n == str_bytes@.len(),
                str_bytes@ == encode_utf8(src@),
                at + n + 1 <= buffer@.len(),
                buffer@.len() == old(buffer)@.len(),
                buffer@.len() == total,
                forall|k: int| 0 <= k < buffer@.len() ==> buffer@[k] == (if at <= k < at + i {
                    str_bytes@[k - at]
                } else {
                    old(buffer)@[k]
                }),
            decreases n - i,
        {
            buffer[at + i] = str_bytes[i];
            i = i + 1;
        }
        buffer[at + n] = 0;
        proof {
            assert(buffer@ =~= patched(old(buffer)@, at as int, entry(src@)));
            assert(buffer@.subrange(at as int, at + entry(src@).len()) =~= entry(src@));
        }
    }

    /// Overlays a string on top of the supplied buffer, up to its first zero byte.
    pub fn over(buffer: &'a [u8]) -> (s: String<'a>)
        requires
            has_nul(buffer@, 0),
        ensures
            s.wf(),
            s.text() == c_str(buffer@, 0),
            s.bytes() == buffer@.subrange(0, nul_pos(buffer@, 0) + 1),
    {
        let ghost end = nul_pos(buffer@, 0);
        assert(nul_at(buffer@, 0, end));
        let mut i: usize = 0;
        while buffer[i] != 0
            invariant
                0 <= i <= end < buffer@.len(),
                nul_at(buffer@, 0, end),
            decreases end - i,
        {
            i = i + 1;
        }
        let content = vstd::slice::slice_subrange(buffer, 0, i + 1);
        proof {
            assert(i == end);
            assert(content@.drop_last() =~= buffer@.subrange(0, end));
        }
        String { content }
    }
}

} // verus!
