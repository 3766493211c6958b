//! Fixed-width little-endian integers inside a byte buffer.
//!
//! Every multi-byte field of the format is stored least-significant byte
//! first and may sit at any offset; none needs alignment. The conversions
//! between integers and bytes are made by zerocopy's byte-order aware types.

use vstd::prelude::*;
use zerocopy::byteorder::{LittleEndian, U32, U64};
use zerocopy::{AsBytes, FromBytes};

verus! {

/// The value of the four bytes of `b` that start at `at`, least significant first.
pub open spec fn le_u32_at(b: Seq<u8>, at: int) -> u32 {
    (b[at] as u32) | (b[at + 1] as u32) << 8 | (b[at + 2] as u32) << 16 | (b[at + 3] as u32) << 24
}

/// The value of the eight bytes of `b` that start at `at`, least significant first.
pub open spec fn le_u64_at(b: Seq<u8>, at: int) -> u64 {
    (b[at] as u64) | (b[at + 1] as u64) << 8 | (b[at + 2] as u64) << 16 | (b[at + 3] as u64) << 24
        | (b[at + 4] as u64) << 32 | (b[at + 5] as u64) << 40 | (b[at + 6] as u64) << 48 | (b[at
        + 7] as u64) << 56
}

/// The four bytes that stand for `v`, least significant first.
pub open spec fn le_bytes_u32(v: u32) -> Seq<u8> {
    seq![
        (v & 0xff) as u8,
        ((v >> 8) & 0xff) as u8,
        ((v >> 16) & 0xff) as u8,
        ((v >> 24) & 0xff) as u8,
    ]
}

/// The eight bytes that stand for `v`, least significant first.
pub open spec fn le_bytes_u64(v: u64) -> Seq<u8> {
    seq![
        (v & 0xff) as u8,
        ((v >> 8) & 0xff) as u8,
        ((v >> 16) & 0xff) as u8,
        ((v >> 24) & 0xff) as u8,
        ((v >> 32) & 0xff) as u8,
        ((v >> 40) & 0xff) as u8,
        ((v >> 48) & 0xff) as u8,
        ((v >> 56) & 0xff) as u8,
    ]
}

/// `b` with the bytes from `at` on replaced by those of `w`.
pub open spec fn patched(b: Seq<u8>, at: int, w: Seq<u8>) -> Seq<u8> {
    Seq::new(b.len(), |i: int| if at <= i < at + w.len() { w[i - at] } else { b[i] })
}

/// `a` and `b` have one length and differ at most inside `[lo, hi)`.
pub open spec fn same_outside(a: Seq<u8>, b: Seq<u8>, lo: int, hi: int) -> bool {
    &&& a.len() == b.len()
    &&& forall|i: int| 0 <= i < a.len() && !(lo <= i < hi) ==> a[i] == b[i]
}

/// `a` and `b` hold the same bytes throughout `[lo, hi)`.
pub open spec fn same_inside(a: Seq<u8>, b: Seq<u8>, lo: int, hi: int) -> bool {
    forall|i: int| lo <= i < hi ==> a[i] == b[i]
}

/// Every byte of `b` in `[lo, hi)` is zero.
pub open spec fn zero_inside(b: Seq<u8>, lo: int, hi: int) -> bool {
    forall|i: int| lo <= i < hi ==> b[i] == 0
}

/// Decoding what was encoded gives the value back.
pub proof fn lemma_u32_round_trip(v: u32)
    ensures
        le_bytes_u32(v).len() == 4,
        le_u32_at(le_bytes_u32(v), 0) == v,
{
    assert((((v & 0xff) as u8) as u32) | (((v >> 8) & 0xff) as u8 as u32) << 8 | (((v >> 16)
        & 0xff) as u8 as u32) << 16 | (((v >> 24) & 0xff) as u8 as u32) << 24 == v)
        by (bit_vector);
}

/// Decoding what was encoded gives the value back.
pub proof fn lemma_u64_round_trip(v: u64)
    ensures
        le_bytes_u64(v).len() == 8,
        le_u64_at(le_bytes_u64(v), 0) == v,
{
    assert((((v & 0xff) as u8) as u64) | (((v >> 8) & 0xff) as u8 as u64) << 8 | (((v >> 16)
        & 0xff) as u8 as u64) << 16 | (((v >> 24) & 0xff) as u8 as u64) << 24 | (((v >> 32)
        & 0xff) as u8 as u64) << 32 | (((v >> 40) & 0xff) as u8 as u64) << 40 | (((v >> 48)
        & 0xff) as u8 as u64) << 48 | (((v >> 56) & 0xff) as u8 as u64) << 56 == v)
        by (bit_vector);
}

/// A run of zero bytes decodes to zero, and zero encodes to zero bytes.
pub proof fn lemma_zero_words(b: Seq<u8>, at: int)
    ensures
        zero_inside(b, at, at + 4) ==> le_u32_at(b, at) == 0,
        zero_inside(b, at, at + 8) ==> le_u64_at(b, at) == 0,
        le_bytes_u32(0) =~= seq![0u8, 0u8, 0u8, 0u8],
        le_bytes_u64(0) =~= seq![0u8, 0u8, 0u8, 0u8, 0u8, 0u8, 0u8, 0u8],
{
    assert((0u8 as u32) | (0u8 as u32) << 8 | (0u8 as u32) << 16 | (0u8 as u32) << 24 == 0)
        by (bit_vector);
    assert((0u8 as u64) | (0u8 as u64) << 8 | (0u8 as u64) << 16 | (0u8 as u64) << 24 | (
    0u8 as u64) << 32 | (0u8 as u64) << 40 | (0u8 as u64) << 48 | (0u8 as u64) << 56 == 0)
        by (bit_vector);
    assert((0u32 & 0xff) as u8 == 0 && ((0u32 >> 8) & 0xff) as u8 == 0 && ((0u32 >> 16)
        & 0xff) as u8 == 0 && ((0u32 >> 24) & 0xff) as u8 == 0) by (bit_vector);
    assert((0u64 & 0xff) as u8 == 0 && ((0u64 >> 8) & 0xff) as u8 == 0 && ((0u64 >> 16)
        & 0xff) as u8 == 0 && ((0u64 >> 24) & 0xff) as u8 == 0 && ((0u64 >> 32) & 0xff) as u8
        == 0 && ((0u64 >> 40) & 0xff) as u8 == 0 && ((0u64 >> 48) & 0xff) as u8 == 0 && ((0u64
        >> 56) & 0xff) as u8 == 0) by (bit_vector);
}

/// `U32::<LittleEndian>::read_from(bytes)` followed by `get`: zerocopy reads
/// the value when `bytes` has exactly four bytes, taking the first as the
/// least significant, and gives nothing for any other length.
#[verifier::external_body]
fn decode_u32(bytes: &[u8]) -> (r: Option<u32>)
    ensures
        r == (if bytes@.len() == 4 {
            Some(le_u32_at(bytes@, 0))
        } else {
            None
        }),
{
    match U32::<LittleEndian>::read_from(bytes) {
        Some(w) => Some(w.get()),
        None => None,
    }
}

/// `U64::<LittleEndian>::read_from(bytes)` followed by `get`: zerocopy reads
/// the value when `bytes` has exactly eight bytes, taking the first as the
/// least significant, and gives nothing for any other length.
#[verifier::external_body]
fn decode_u64(bytes: &[u8]) -> (r: Option<u64>)
    ensures
        r == (if bytes@.len() == 8 {
            Some(le_u64_at(bytes@, 0))
        } else {
            None
        }),
{
    match U64::<LittleEndian>::read_from(bytes) {
        Some(w) => Some(w.get()),
        None => None,
    }
}

/// `U32::<LittleEndian>::new(v).write_to(..)` on the four bytes of `buf` from
/// `at` on: zerocopy stores `v` there, least significant byte first, and
/// touches nothing else.
#[verifier::external_body]
fn encode_u32(buf: &mut Vec<u8>, at: usize, v: u32)
    requires
        at + 4 <= old(buf)@.len(),
    ensures
        final(buf)@ == patched(old(buf)@, at as int, le_bytes_u32(v)),
{
    let _ = U32::<LittleEndian>::new(v).write_to(&mut buf[at..at + 4]);
}

/// `U64::<LittleEndian>::new(v).write_to(..)` on the eight bytes of `buf` from
/// `at` on: zerocopy stores `v` there, least significant byte first, and
/// touches nothing else.
#[verifier::external_body]
fn encode_u64(buf: &mut Vec<u8>, at: usize, v: u64)
    requires
        at + 8 <= old(buf)@.len(),
    ensures
        final(buf)@ == patched(old(buf)@, at as int, le_bytes_u64(v)),
{
    let _ = U64::<LittleEndian>::new(v).write_to(&mut buf[at..at + 8]);
}

/// Reads the 32-bit field of `bytes` at offset `at`.
pub fn get_u32(bytes: &[u8], at: usize) -> (v: u32)
    requires
        at + 4 <= bytes@.len(),
    ensures
        v == le_u32_at(bytes@, at as int),
{
    let end: usize = bytes.len();
    let part = vstd::slice::slice_subrange(bytes, at, at + 4);
    match decode_u32(part) {
        Some(v) => v,
        None => 0,
    }
}

/// Reads the 64-bit field of `bytes` at offset `at`.
pub fn get_u64(bytes: &[u8], at: usize) -> (v: u64)
    requires
        at + 8 <= bytes@.len(),
    ensures
        v == le_u64_at(bytes@, at as int),
{
    let end: usize = bytes.len();
    let part = vstd::slice::slice_subrange(bytes, at, at + 8);
    match decode_u64(part) {
        Some(v) => v,
        None => 0,
    }
}

/// Stores `v` in the 32-bit field of `buf` at offset `at`.
pub fn put_u32(buf: &mut Vec<u8>, at: usize, v: u32)
    requires
        at + 4 <= old(buf)@.len(),
    ensures
        final(buf)@ == patched(old(buf)@, at as int, le_bytes_u32(v)),
        same_outside(old(buf)@, final(buf)@, at as int, at + 4),
        le_u32_at(final(buf)@, at as int) == v,
{
    proof {
        lemma_u32_round_trip(v);
    }
    encode_u32(buf, at, v);
}

/// Stores `v` in the 64-bit field of `buf` at offset `at`.
pub fn put_u64(buf: &mut Vec<u8>, at: usize, v: u64)
    requires
        at + 8 <= old(buf)@.len(),
    ensures
        final(buf)@ == patched(old(buf)@, at as int, le_bytes_u64(v)),
        same_outside(old(buf)@, final(buf)@, at as int, at + 8),
        le_u64_at(final(buf)@, at as int) == v,
{
    proof {
        lemma_u64_round_trip(v);
    }
    encode_u64(buf, at, v);
}

} // verus!
