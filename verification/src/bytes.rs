//! Little-endian byte encodings of fixed-width integers.

use vstd::prelude::*;

verus! {

pub open spec fn le_u16(v: u16) -> Seq<u8> {
    seq![(v % 256) as u8, (v / 256) as u8]
}

pub open spec fn le_u32(v: u32) -> Seq<u8> {
    seq![(v % 256) as u8, ((v / 256) % 256) as u8, ((v / 65536) % 256) as u8, (v / 16777216) as u8]
}

pub open spec fn le_u64(v: u64) -> Seq<u8> {
    le_u32((v % 4294967296) as u32) + le_u32((v / 4294967296) as u32)
}

pub open spec fn from_le_u32(b: Seq<u8>) -> u32 {
    (b[0] + 256 * b[1] + 65536 * b[2] + 16777216 * b[3]) as u32
}

pub open spec fn from_le_u64(b: Seq<u8>) -> u64 {
    (from_le_u32(b.take(4)) + 4294967296 * from_le_u32(b.subrange(4, 8))) as u64
}

pub proof fn lemma_le_u32_roundtrip(v: u32)
    ensures
        le_u32(v).len() == 4,
        from_le_u32(le_u32(v)) == v,
{
    let b0 = v % 256;
    let b1 = (v / 256) % 256;
    let b2 = (v / 65536) % 256;
    let b3 = v / 16777216;
    assert(v == b0 + 256 * b1 + 65536 * b2 + 16777216 * b3) by {
        vstd::arithmetic::div_mod::lemma_fundamental_div_mod(v as int, 256);
        vstd::arithmetic::div_mod::lemma_fundamental_div_mod((v / 256) as int, 256);
        vstd::arithmetic::div_mod::lemma_fundamental_div_mod((v / 65536) as int, 256);
        vstd::arithmetic::div_mod::lemma_div_denominator(v as int, 256, 256);
        vstd::arithmetic::div_mod::lemma_div_denominator(v as int, 65536, 256);
    }
}

pub proof fn lemma_le_u64_roundtrip(v: u64)
    ensures
        le_u64(v).len() == 8,
        from_le_u64(le_u64(v)) == v,
{
    let lo = (v % 4294967296) as u32;
    let hi = (v / 4294967296) as u32;
    lemma_le_u32_roundtrip(lo);
    lemma_le_u32_roundtrip(hi);
    assert(le_u64(v).take(4) =~= le_u32(lo));
    assert(le_u64(v).subrange(4, 8) =~= le_u32(hi));
    vstd::arithmetic::div_mod::lemma_fundamental_div_mod(v as int, 4294967296);
}

/// Append the little-endian bytes of `v`.
pub fn push_u32(o: &mut Vec<u8>, v: u32)
    ensures final(o)@ == old(o)@ + le_u32(v),
{
    o.push((v % 256) as u8);
    o.push(((v / 256) % 256) as u8);
    o.push(((v / 65536) % 256) as u8);
    o.push((v / 16777216) as u8);
    assert(o@ =~= old(o)@ + le_u32(v));
}

/// Append the little-endian bytes of `v`.
pub fn push_u64(o: &mut Vec<u8>, v: u64)
    ensures final(o)@ == old(o)@ + le_u64(v),
{
    push_u32(o, (v % 4294967296) as u32);
    push_u32(o, (v / 4294967296) as u32);
    assert(o@ =~= old(o)@ + le_u64(v));
}

/// The little-endian bytes of `v`.
pub fn u32_le_bytes(v: u32) -> (b: Vec<u8>)
    ensures b@ == le_u32(v),
{
    let mut b: Vec<u8> = Vec::new();
    push_u32(&mut b, v);
    assert(b@ =~= le_u32(v));
    b
}

/// Decode four little-endian bytes.
pub fn read_u32_le(b: &[u8], pos: usize) -> (v: u32)
    requires pos + 4 <= b@.len(),
    ensures v == from_le_u32(b@.subrange(pos as int, pos + 4)),
{
    let b0 = b[pos] as u32;
    let b1 = b[pos + 1] as u32;
    let b2 = b[pos + 2] as u32;
    let b3 = b[pos + 3] as u32;
    b0 + 256 * b1 + 65536 * b2 + 16777216 * b3
}

/// Decode eight little-endian bytes.
pub fn read_u64_le(b: &[u8], pos: usize) -> (v: u64)
    requires pos + 8 <= b@.len(),
    ensures v == from_le_u64(b@.subrange(pos as int, pos + 8)),
{
    let n = b.len();
    assert(pos + 8 <= n);
    let lo = read_u32_le(b, pos) as u64;
    let hi = read_u32_le(b, pos + 4) as u64;
    assert(b@.subrange(pos as int, pos + 8).take(4) =~= b@.subrange(pos as int, pos + 4));
    assert(b@.subrange(pos as int, pos + 8).subrange(4, 8) =~= b@.subrange(pos + 4, pos + 8));
    lo + 4294967296 * hi
}

} // verus!
