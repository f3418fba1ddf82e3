//! Fixed-width little-endian integers as byte sequences.
//!
//! Encoding is done here, byte by byte. Decoding is done by `byteorder`,
//! whose two read functions are given their contracts in this file.

use byteorder::{ByteOrder, LittleEndian};
use vstd::prelude::*;

verus! {

/// The two bytes of `x`, least significant first.
pub open spec fn u16_le(x: u16) -> Seq<u8> {
    seq![(x % 256) as u8, (x / 256) as u8]
}

/// The number whose little-endian bytes are the first two entries of `s`.
pub open spec fn le_u16(s: Seq<u8>) -> int {
    s[0] as int + 256 * (s[1] as int)
}

/// The eight bytes of `x`, least significant first: each is the remainder of
/// what the bytes before it left over.
pub open spec fn u64_le(x: u64) -> Seq<u8> {
    let q1 = x / 256;
    let q2 = q1 / 256;
    let q3 = q2 / 256;
    let q4 = q3 / 256;
    let q5 = q4 / 256;
    let q6 = q5 / 256;
    let q7 = q6 / 256;
    seq![
        (x % 256) as u8,
        (q1 % 256) as u8,
        (q2 % 256) as u8,
        (q3 % 256) as u8,
        (q4 % 256) as u8,
        (q5 % 256) as u8,
        (q6 % 256) as u8,
        (q7 % 256) as u8,
    ]
}

/// The number whose little-endian bytes are the first eight entries of `s`.
pub open spec fn le_u64(s: Seq<u8>) -> int {
    s[0] as int + 0x100 * (s[1] as int) + 0x1_0000 * (s[2] as int) + 0x100_0000 * (s[3] as int)
        + 0x1_0000_0000 * (s[4] as int) + 0x100_0000_0000 * (s[5] as int) + 0x1_0000_0000_0000 * (
    s[6] as int) + 0x100_0000_0000_0000 * (s[7] as int)
}

/// Decoding the encoding of a 16-bit number gives the number back, whatever
/// follows the two bytes.
pub proof fn lemma_u16_round_trip(x: u16, rest: Seq<u8>)
    ensures
        u16_le(x).len() == 2,
        le_u16(u16_le(x) + rest) == x,
{
    let s = u16_le(x) + rest;
    assert(s[0] == (x % 256) as u8);
    assert(s[1] == (x / 256) as u8);
}

/// Decoding the encoding of a 64-bit number gives the number back, whatever
/// follows the eight bytes.
pub proof fn lemma_u64_round_trip(x: u64, rest: Seq<u8>)
    ensures
        u64_le(x).len() == 8,
        le_u64(u64_le(x) + rest) == x,
{
    let s = u64_le(x) + rest;
    let q1 = x / 256;
    let q2 = q1 / 256;
    let q3 = q2 / 256;
    let q4 = q3 / 256;
    let q5 = q4 / 256;
    let q6 = q5 / 256;
    let q7 = q6 / 256;
    assert(s[0] == (x % 256) as u8);
    assert(s[1] == (q1 % 256) as u8);
    assert(s[2] == (q2 % 256) as u8);
    assert(s[3] == (q3 % 256) as u8);
    assert(s[4] == (q4 % 256) as u8);
    assert(s[5] == (q5 % 256) as u8);
    assert(s[6] == (q6 % 256) as u8);
    assert(s[7] == (q7 % 256) as u8);
    assert(q7 < 256);
    let v7: int = q7 as int;
    let v6: int = s[6] as int + 256 * v7;
    let v5: int = s[5] as int + 256 * v6;
    let v4: int = s[4] as int + 256 * v5;
    let v3: int = s[3] as int + 256 * v4;
    let v2: int = s[2] as int + 256 * v3;
    let v1: int = s[1] as int + 256 * v2;
    let v0: int = s[0] as int + 256 * v1;
    assert(v6 == q6);
    assert(v5 == q5);
    assert(v4 == q4);
    assert(v3 == q3);
    assert(v2 == q2);
    assert(v1 == q1);
    assert(v0 == x);
}

/// Appends the two little-endian bytes of `x` to `out`.
pub fn push_u16(out: &mut Vec<u8>, x: u16)
    ensures
        final(out)@ == old(out)@ + u16_le(x),
{
    out.push((x % 256) as u8);
    out.push((x / 256) as u8);
    assert(out@ =~= old(out)@ + u16_le(x));
}

/// Appends the eight little-endian bytes of `x` to `out`.
pub fn push_u64(out: &mut Vec<u8>, x: u64)
    ensures
        final(out)@ == old(out)@ + u64_le(x),
{
    let q1: u64 = x / 256;
    let q2: u64 = q1 / 256;
    let q3: u64 = q2 / 256;
    let q4: u64 = q3 / 256;
    let q5: u64 = q4 / 256;
    let q6: u64 = q5 / 256;
    let q7: u64 = q6 / 256;
    out.push((x % 256) as u8);
    out.push((q1 % 256) as u8);
    out.push((q2 % 256) as u8);
    out.push((q3 % 256) as u8);
    out.push((q4 % 256) as u8);
    out.push((q5 % 256) as u8);
    out.push((q6 % 256) as u8);
    out.push((q7 % 256) as u8);
    assert(out@ =~= old(out)@ + u64_le(x));
}

/// `byteorder::LittleEndian::read_u16`: the 16-bit number held, least
/// significant byte first, in the first two bytes of `buf`. The call panics on
/// a shorter buffer, which the precondition excludes. Not proved here.
#[verifier::external_body]
pub(crate) fn read_u16(buf: &[u8]) -> (r: u16)
    requires
        buf@.len() >= 2,
    ensures
        r as int == le_u16(buf@),
{
    LittleEndian::read_u16(buf)
}

/// `byteorder::LittleEndian::read_u64`: the 64-bit number held, least
/// significant byte first, in the first eight bytes of `buf`. The call panics
/// on a shorter buffer, which the precondition excludes. Not proved here.
#[verifier::external_body]
pub(crate) fn read_u64(buf: &[u8]) -> (r: u64)
    requires
        buf@.len() >= 8,
    ensures
        r as int == le_u64(buf@),
{
    LittleEndian::read_u64(buf)
}

} // verus!
