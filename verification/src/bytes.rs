//! Little-endian integers as they lie in a block.

use vstd::prelude::*;

verus! {

/// The value of a byte as a mathematical integer.
pub open spec fn byte_value(b: u8) -> int {
    b as int
}

/// The unsigned 16-bit number whose little-endian form starts at `at`.
pub open spec fn le_u16_at(s: Seq<u8>, at: int) -> u16
    recommends
        0 <= at,
        at + 2 <= s.len(),
{
    (s[at] + 0x100 * s[at + 1]) as u16
}

/// The unsigned 32-bit number whose little-endian form starts at `at`.
pub open spec fn le_u32_at(s: Seq<u8>, at: int) -> u32
    recommends
        0 <= at,
        at + 4 <= s.len(),
{
    (s[at] + 0x100 * s[at + 1] + 0x1_0000 * s[at + 2] + 0x100_0000 * s[at + 3]) as u32
}

/// The unsigned 64-bit number whose little-endian form starts at `at`.
pub open spec fn le_u64_at(s: Seq<u8>, at: int) -> u64
    recommends
        0 <= at,
        at + 8 <= s.len(),
{
    (le_u32_at(s, at) + 0x1_0000_0000 * le_u32_at(s, at + 4)) as u64
}

/// The signed 32-bit number whose little-endian form, in two's complement,
/// starts at `at`.
pub open spec fn le_i32_at(s: Seq<u8>, at: int) -> i32
    recommends
        0 <= at,
        at + 4 <= s.len(),
{
    if le_u32_at(s, at) < 0x8000_0000 {
        le_u32_at(s, at) as i32
    } else {
        (le_u32_at(s, at) - 0x1_0000_0000) as i32
    }
}

/// The little-endian form of a 16-bit number.
pub open spec fn le_bytes_u16(v: u16) -> Seq<u8> {
    seq![(v % 0x100) as u8, (v / 0x100) as u8]
}

/// The little-endian form of a 32-bit number.
pub open spec fn le_bytes_u32(v: u32) -> Seq<u8> {
    le_bytes_u16((v % 0x1_0000) as u16) + le_bytes_u16((v / 0x1_0000) as u16)
}

/// The little-endian form of a 64-bit number.
pub open spec fn le_bytes_u64(v: u64) -> Seq<u8> {
    le_bytes_u32((v % 0x1_0000_0000) as u32) + le_bytes_u32((v / 0x1_0000_0000) as u32)
}

/// Reads a little-endian `u16` at offset `at`.
pub fn read_le_u16(data: &[u8], at: usize) -> (v: u16)
    requires
        at + 2 <= data@.len(),
    ensures
        v == le_u16_at(data@, at as int),
{
    let lo: u16 = data[at] as u16;
    let hi: u16 = data[at + 1] as u16;
    lo + 0x100 * hi
}

/// Reads a little-endian `u32` at offset `at`.
pub fn read_le_u32(data: &[u8], at: usize) -> (v: u32)
    requires
        at + 4 <= data@.len(),
    ensures
        v == le_u32_at(data@, at as int),
{
    let b0: u32 = data[at] as u32;
    let b1: u32 = data[at + 1] as u32;
    let b2: u32 = data[at + 2] as u32;
    let b3: u32 = data[at + 3] as u32;
    b0 + 0x100 * b1 + 0x1_0000 * b2 + 0x100_0000 * b3
}

/// Reads a little-endian `i32` at offset `at`.
pub fn read_le_i32(data: &[u8], at: usize) -> (v: i32)
    requires
        at + 4 <= data@.len(),
    ensures
        v == le_i32_at(data@, at as int),
{
    let raw: u32 = read_le_u32(data, at);
    if raw < 0x8000_0000 {
        raw as i32
    } else {
        (raw - 0x8000_0000) as i32 - 0x7fff_ffff - 1
    }
}

/// Reads a little-endian `u64` at offset `at`.
pub fn read_le_u64(data: &[u8], at: usize) -> (v: u64)
    requires
        at + 8 <= data@.len(),
    ensures
        v == le_u64_at(data@, at as int),
{
    let len: usize = data.len();
    let lo: u64 = read_le_u32(data, at) as u64;
    let hi: u64 = read_le_u32(data, at + 4) as u64;
    lo + 0x1_0000_0000 * hi
}

/// Appends the little-endian form of `v` to `out`.
pub fn write_le_u16(out: &mut Vec<u8>, v: u16)
    ensures
        final(out)@ == old(out)@ + le_bytes_u16(v),
{
    out.push((v % 0x100) as u8);
    out.push((v / 0x100) as u8);
    assert(final(out)@ =~= old(out)@ + le_bytes_u16(v));
}

/// Appends the little-endian form of `v` to `out`.
pub fn write_le_u32(out: &mut Vec<u8>, v: u32)
    ensures
        final(out)@ == old(out)@ + le_bytes_u32(v),
{
    let lo: u16 = (v % 0x1_0000) as u16;
    let hi: u16 = (v / 0x1_0000) as u16;
    let ghost low = le_bytes_u16(lo);
    let ghost high = le_bytes_u16(hi);
    write_le_u16(out, lo);
    write_le_u16(out, hi);
    assert((old(out)@ + low) + high =~= old(out)@ + (low + high));
}

/// Appends the little-endian form of `v` to `out`.
pub fn write_le_u64(out: &mut Vec<u8>, v: u64)
    ensures
        final(out)@ == old(out)@ + le_bytes_u64(v),
{
    let lo: u32 = (v % 0x1_0000_0000) as u32;
    let hi: u32 = (v / 0x1_0000_0000) as u32;
    let ghost low = le_bytes_u32(lo);
    let ghost high = le_bytes_u32(hi);
    write_le_u32(out, lo);
    write_le_u32(out, hi);
    assert((old(out)@ + low) + high =~= old(out)@ + (low + high));
}

/// A number read at an offset is the number read at the start of the bytes
/// from that offset on.
pub proof fn lemma_le_at_subrange(s: Seq<u8>, from: int, to: int)
    requires
        0 <= from <= to <= s.len(),
    ensures
        from + 2 <= to ==> le_u16_at(s, from) == le_u16_at(s.subrange(from, to), 0),
        from + 4 <= to ==> le_u32_at(s, from) == le_u32_at(s.subrange(from, to), 0),
        from + 8 <= to ==> le_u64_at(s, from) == le_u64_at(s.subrange(from, to), 0),
{
}

/// Writing the number read at an offset gives the bytes that lie there.
pub proof fn lemma_le_u16_bytes(s: Seq<u8>, at: int)
    requires
        0 <= at,
        at + 2 <= s.len(),
    ensures
        le_bytes_u16(le_u16_at(s, at)) == s.subrange(at, at + 2),
{
    assert(le_bytes_u16(le_u16_at(s, at)) =~= s.subrange(at, at + 2));
}

/// Writing the number read at an offset gives the bytes that lie there.
pub proof fn lemma_le_u32_bytes(s: Seq<u8>, at: int)
    requires
        0 <= at,
        at + 4 <= s.len(),
    ensures
        le_bytes_u32(le_u32_at(s, at)) == s.subrange(at, at + 4),
{
    let v = le_u32_at(s, at);
    assert((v % 0x1_0000) as u16 == le_u16_at(s, at));
    assert((v / 0x1_0000) as u16 == le_u16_at(s, at + 2));
    lemma_le_u16_bytes(s, at);
    lemma_le_u16_bytes(s, at + 2);
    assert(s.subrange(at, at + 2) + s.subrange(at + 2, at + 4) =~= s.subrange(at, at + 4));
}

/// Writing the number read at an offset gives the bytes that lie there.
pub proof fn lemma_le_u64_bytes(s: Seq<u8>, at: int)
    requires
        0 <= at,
        at + 8 <= s.len(),
    ensures
        le_bytes_u64(le_u64_at(s, at)) == s.subrange(at, at + 8),
{
    let v = le_u64_at(s, at);
    assert((v % 0x1_0000_0000) as u32 == le_u32_at(s, at));
    assert((v / 0x1_0000_0000) as u32 == le_u32_at(s, at + 4));
    lemma_le_u32_bytes(s, at);
    lemma_le_u32_bytes(s, at + 4);
    assert(s.subrange(at, at + 4) + s.subrange(at + 4, at + 8) =~= s.subrange(at, at + 8));
}

/// Reading back what was written gives the number again.
pub proof fn lemma_le_u16_round_trip(v: u16)
    ensures
        le_bytes_u16(v).len() == 2,
        le_u16_at(le_bytes_u16(v), 0) == v,
{
}

/// Reading back what was written gives the number again.
pub proof fn lemma_le_u32_round_trip(v: u32)
    ensures
        le_bytes_u32(v).len() == 4,
        le_u32_at(le_bytes_u32(v), 0) == v,
{
    lemma_le_u16_round_trip((v % 0x1_0000) as u16);
    lemma_le_u16_round_trip((v / 0x1_0000) as u16);
}

/// Reading back what was written gives the number again.
pub proof fn lemma_le_u64_round_trip(v: u64)
    ensures
        le_bytes_u64(v).len() == 8,
        le_u64_at(le_bytes_u64(v), 0) == v,
{
    lemma_le_u32_round_trip((v % 0x1_0000_0000) as u32);
    lemma_le_u32_round_trip((v / 0x1_0000_0000) as u32);
}

} // verus!
