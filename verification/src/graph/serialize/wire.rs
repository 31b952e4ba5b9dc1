//! The blob wire format as specification: what each writer appends (`enc_*`), and what a
//! reader at byte offset `p` of a buffer finds there (`*_len_at` gives how many bytes a
//! well-formed field occupies, or -1; `*_at` gives the value it decodes to). Everything is
//! little-endian; vector lengths are u32, sizes and axes u64.

use vstd::prelude::*;
use crate::bytes::{le_u32, le_u64, from_le_u32, from_le_u64, lemma_le_u32_roundtrip, lemma_le_u64_roundtrip};
use crate::dtype::DType;
use crate::graph::op::{ArgKind, ScatterOp};

verus! {

/// Stable dtype numbering shared by every surface of the format.
pub open spec fn tag_of_dtype(d: DType) -> u8 {
    match d {
        DType::BOOL => 0,
        DType::U8 => 1,
        DType::U16 => 2,
        DType::U32 => 3,
        DType::U64 => 4,
        DType::I8 => 5,
        DType::I16 => 6,
        DType::I32 => 7,
        DType::I64 => 8,
        DType::F8E4M3 => 9,
        DType::F8E5M2 => 10,
        DType::F16 => 11,
        DType::BF16 => 12,
        DType::F32 => 13,
        DType::F64 => 14,
        DType::C64 => 15,
        DType::C128 => 16,
    }
}

/// The dtype a tag names (tags above 16 name none; see `dtype_len_at`).
pub open spec fn dtype_of_tag(t: u8) -> DType {
    if t == 0 { DType::BOOL }
    else if t == 1 { DType::U8 }
    else if t == 2 { DType::U16 }
    else if t == 3 { DType::U32 }
    else if t == 4 { DType::U64 }
    else if t == 5 { DType::I8 }
    else if t == 6 { DType::I16 }
    else if t == 7 { DType::I32 }
    else if t == 8 { DType::I64 }
    else if t == 9 { DType::F8E4M3 }
    else if t == 10 { DType::F8E5M2 }
    else if t == 11 { DType::F16 }
    else if t == 12 { DType::BF16 }
    else if t == 13 { DType::F32 }
    else if t == 14 { DType::F64 }
    else if t == 15 { DType::C64 }
    else { DType::C128 }
}

pub proof fn lemma_dtype_tag(d: DType)
    ensures tag_of_dtype(d) <= 16, dtype_of_tag(tag_of_dtype(d)) == d,
{
}

pub open spec fn tag_of_scatter(s: ScatterOp) -> u8 {
    match s {
        ScatterOp::Assign => 0,
        ScatterOp::Add => 1,
        ScatterOp::Max => 2,
        ScatterOp::Min => 3,
    }
}

pub open spec fn scatter_of_tag(t: u8) -> ScatterOp {
    if t == 0 { ScatterOp::Assign } else if t == 1 { ScatterOp::Add } else if t == 2 { ScatterOp::Max } else { ScatterOp::Min }
}

pub open spec fn tag_of_argkind(k: ArgKind) -> u8 {
    match k {
        ArgKind::Max => 0,
        ArgKind::Min => 1,
    }
}

pub open spec fn argkind_of_tag(t: u8) -> ArgKind {
    if t == 0 { ArgKind::Max } else { ArgKind::Min }
}

// ---- encoders ----

pub open spec fn enc_bool(v: bool) -> Seq<u8> {
    seq![if v { 1u8 } else { 0u8 }]
}

pub open spec fn enc_usize(x: usize) -> Seq<u8> {
    le_u64(x as u64)
}

/// Each value as eight little-endian bytes, in order.
pub open spec fn enc_usizes(v: Seq<usize>) -> Seq<u8>
    decreases v.len(),
{
    if v.len() == 0 { Seq::empty() } else { enc_usizes(v.drop_last()) + enc_usize(v.last()) }
}

/// A u32 count, then the values.
pub open spec fn enc_vec(v: Seq<usize>) -> Seq<u8> {
    le_u32(v.len() as u32) + enc_usizes(v)
}

pub open spec fn flat3(v: Seq<(usize, usize, usize)>) -> Seq<usize> {
    Seq::new(3 * v.len(), |i: int| if i % 3 == 0 { v[i / 3].0 } else if i % 3 == 1 { v[i / 3].1 } else { v[i / 3].2 })
}

pub open spec fn flat2(v: Seq<(usize, usize)>) -> Seq<usize> {
    Seq::new(2 * v.len(), |i: int| if i % 2 == 0 { v[i / 2].0 } else { v[i / 2].1 })
}

/// A u32 count of triples, then their components in order.
pub open spec fn enc_triples(v: Seq<(usize, usize, usize)>) -> Seq<u8> {
    le_u32(v.len() as u32) + enc_usizes(flat3(v))
}

/// A u32 count of pairs, then their components in order.
pub open spec fn enc_pairs(v: Seq<(usize, usize)>) -> Seq<u8> {
    le_u32(v.len() as u32) + enc_usizes(flat2(v))
}

/// Each id as four little-endian bytes, in order.
pub open spec fn enc_ids(v: Seq<u32>) -> Seq<u8>
    decreases v.len(),
{
    if v.len() == 0 { Seq::empty() } else { enc_ids(v.drop_last()) + le_u32(v.last()) }
}

/// A dtype tag, a u64 byte count, then the payload.
pub open spec fn enc_storage(d: DType, bytes: Seq<u8>) -> Seq<u8> {
    seq![tag_of_dtype(d)] + le_u64(bytes.len() as u64) + bytes
}

/// A u32 byte count, then the bytes (a UTF-8 name).
pub open spec fn enc_str(bytes: Seq<u8>) -> Seq<u8> {
    le_u32(bytes.len() as u32) + bytes
}

// ---- readers: byte counts (-1 when malformed) and decoded values at offset `p` ----

/// Both parts well formed: their total length, else -1.
pub open spec fn plus(a: int, b: int) -> int {
    if a < 0 || b < 0 { -1 } else { a + b }
}

/// `n` bytes are available at `p`.
pub open spec fn fixed_len_at(b: Seq<u8>, p: int, n: int) -> int {
    if 0 <= p && p + n <= b.len() { n } else { -1 }
}

pub open spec fn u32_at(b: Seq<u8>, p: int) -> u32 {
    from_le_u32(b.subrange(p, p + 4))
}

pub open spec fn u64_at(b: Seq<u8>, p: int) -> u64 {
    from_le_u64(b.subrange(p, p + 8))
}

pub open spec fn usize_at(b: Seq<u8>, p: int) -> usize {
    u64_at(b, p) as usize
}

/// A byte that is a known tag (at most `max`).
pub open spec fn tag_len_at(b: Seq<u8>, p: int, max: u8) -> int {
    if 0 <= p < b.len() && b[p] <= max { 1 } else { -1 }
}

/// `n` consecutive usizes starting at `p`.
pub open spec fn usizes_at(b: Seq<u8>, p: int, n: nat) -> Seq<usize> {
    Seq::new(n, |i: int| usize_at(b, p + 8 * i))
}

/// Length of a counted run of `w`-usize records at `p`.
pub open spec fn run_len_at(b: Seq<u8>, p: int, w: int) -> int {
    if 0 <= p && p + 4 <= b.len() && p + 4 + 8 * w * u32_at(b, p) <= b.len() {
        4 + 8 * w * u32_at(b, p)
    } else {
        -1
    }
}

pub open spec fn vec_at(b: Seq<u8>, p: int) -> Seq<usize> {
    usizes_at(b, p + 4, u32_at(b, p) as nat)
}

pub open spec fn triples_at(b: Seq<u8>, p: int) -> Seq<(usize, usize, usize)> {
    Seq::new(u32_at(b, p) as nat, |i: int| (usize_at(b, p + 4 + 24 * i), usize_at(b, p + 12 + 24 * i), usize_at(b, p + 20 + 24 * i)))
}

pub open spec fn pairs_at(b: Seq<u8>, p: int) -> Seq<(usize, usize)> {
    Seq::new(u32_at(b, p) as nat, |i: int| (usize_at(b, p + 4 + 16 * i), usize_at(b, p + 12 + 16 * i)))
}

/// `n` consecutive u32 ids starting at `p`.
pub open spec fn ids_at(b: Seq<u8>, p: int, n: nat) -> Seq<u32> {
    Seq::new(n, |i: int| u32_at(b, p + 4 * i))
}

/// A storage: a known dtype tag, a u64 count, and that many payload bytes.
pub open spec fn storage_len_at(b: Seq<u8>, p: int) -> int {
    if 0 <= p && p + 9 <= b.len() && b[p] <= 16 && p + 9 + u64_at(b, p + 1) <= b.len() {
        9 + u64_at(b, p + 1)
    } else {
        -1
    }
}

/// The payload bytes of the storage at `p`.
pub open spec fn storage_bytes_at(b: Seq<u8>, p: int) -> Seq<u8> {
    b.subrange(p + 9, p + 9 + u64_at(b, p + 1))
}

/// A counted string at `p` whose bytes are valid UTF-8.
pub open spec fn str_len_at(b: Seq<u8>, p: int) -> int {
    if 0 <= p && p + 4 <= b.len() && p + 4 + u32_at(b, p) <= b.len()
        && vstd::utf8::valid_utf8(b.subrange(p + 4, p + 4 + u32_at(b, p))) {
        4 + u32_at(b, p)
    } else {
        -1
    }
}

pub open spec fn str_bytes_at(b: Seq<u8>, p: int) -> Seq<u8> {
    b.subrange(p + 4, p + 4 + u32_at(b, p))
}

// ---- field lemmas: a reader at an encoding finds its length and its value ----

/// Bytes of `b` at `p` are exactly `e`.
pub open spec fn holds_at(b: Seq<u8>, p: int, e: Seq<u8>) -> bool {
    0 <= p && p + e.len() <= b.len() && b.subrange(p, p + e.len()) == e
}

/// A window of an encoding is found at the matching offset.
#[verifier::spinoff_prover]
pub proof fn lemma_holds_sub(b: Seq<u8>, p: int, e: Seq<u8>, i: int, j: int)
    requires holds_at(b, p, e), 0 <= i <= j <= e.len(),
    ensures holds_at(b, p + i, e.subrange(i, j)),
{
    assert(b.subrange(p + i, p + j) =~= e.subrange(i, j)) by {
        assert forall|k: int| 0 <= k < j - i implies b.subrange(p + i, p + j)[k] == e.subrange(i, j)[k] by {
            assert(b.subrange(p, p + e.len())[i + k] == e[i + k]);
        }
    }
}

/// The two halves of a concatenation are found side by side.
#[verifier::spinoff_prover]
pub proof fn lemma_holds_cat(b: Seq<u8>, p: int, x: Seq<u8>, y: Seq<u8>)
    requires holds_at(b, p, x + y),
    ensures holds_at(b, p, x), holds_at(b, p + x.len(), y),
{
    lemma_holds_sub(b, p, x + y, 0, x.len() as int);
    lemma_holds_sub(b, p, x + y, x.len() as int, (x + y).len() as int);
    assert((x + y).subrange(0, x.len() as int) =~= x);
    assert((x + y).subrange(x.len() as int, (x + y).len() as int) =~= y);
}

pub proof fn lemma_u32_at(b: Seq<u8>, p: int, v: u32)
    requires holds_at(b, p, le_u32(v)),
    ensures fixed_len_at(b, p, 4) == 4, u32_at(b, p) == v,
{
    lemma_le_u32_roundtrip(v);
}

pub proof fn lemma_u64_at(b: Seq<u8>, p: int, v: u64)
    requires holds_at(b, p, le_u64(v)),
    ensures fixed_len_at(b, p, 8) == 8, u64_at(b, p) == v,
{
    lemma_le_u64_roundtrip(v);
}

pub proof fn lemma_usize_at(b: Seq<u8>, p: int, v: usize)
    requires holds_at(b, p, enc_usize(v)),
    ensures fixed_len_at(b, p, 8) == 8, usize_at(b, p) == v,
{
    lemma_le_u64_roundtrip(v as u64);
}

pub proof fn lemma_enc_usizes_len(v: Seq<usize>)
    ensures enc_usizes(v).len() == 8 * v.len(),
    decreases v.len(),
{
    if v.len() > 0 {
        lemma_enc_usizes_len(v.drop_last());
        lemma_le_u64_roundtrip(v.last() as u64);
    }
}

#[verifier::spinoff_prover]
pub proof fn lemma_usizes_at(b: Seq<u8>, p: int, v: Seq<usize>)
    requires holds_at(b, p, enc_usizes(v)),
    ensures usizes_at(b, p, v.len()) == v, enc_usizes(v).len() == 8 * v.len(),
    decreases v.len(),
{
    lemma_enc_usizes_len(v);
    if v.len() > 0 {
        let init = v.drop_last();
        lemma_enc_usizes_len(init);
        lemma_holds_cat(b, p, enc_usizes(init), enc_usize(v.last()));
        lemma_usizes_at(b, p, init);
        lemma_usize_at(b, p + 8 * init.len(), v.last());
        assert(usizes_at(b, p, v.len()) =~= v) by {
            assert forall|i: int| 0 <= i < v.len() implies usizes_at(b, p, v.len())[i] == v[i] by {
                if i < init.len() {
                    assert(usizes_at(b, p, init.len())[i] == init[i]);
                }
            }
        }
    }
}

pub proof fn lemma_enc_ids_len(v: Seq<u32>)
    ensures enc_ids(v).len() == 4 * v.len(),
    decreases v.len(),
{
    if v.len() > 0 {
        lemma_enc_ids_len(v.drop_last());
        lemma_le_u32_roundtrip(v.last());
    }
}

#[verifier::spinoff_prover]
pub proof fn lemma_ids_at(b: Seq<u8>, p: int, v: Seq<u32>)
    requires holds_at(b, p, enc_ids(v)),
    ensures ids_at(b, p, v.len()) == v, enc_ids(v).len() == 4 * v.len(),
    decreases v.len(),
{
    lemma_enc_ids_len(v);
    if v.len() > 0 {
        let init = v.drop_last();
        lemma_enc_ids_len(init);
        lemma_holds_cat(b, p, enc_ids(init), le_u32(v.last()));
        lemma_ids_at(b, p, init);
        lemma_u32_at(b, p + 4 * init.len(), v.last());
        assert(ids_at(b, p, v.len()) =~= v) by {
            assert forall|i: int| 0 <= i < v.len() implies ids_at(b, p, v.len())[i] == v[i] by {
                if i < init.len() {
                    assert(ids_at(b, p, init.len())[i] == init[i]);
                }
            }
        }
    }
}

#[verifier::spinoff_prover]
pub proof fn lemma_vec_at(b: Seq<u8>, p: int, v: Seq<usize>)
    requires holds_at(b, p, enc_vec(v)), v.len() <= u32::MAX,
    ensures run_len_at(b, p, 1) == enc_vec(v).len() == 4 + 8 * v.len(), vec_at(b, p) == v,
{
    lemma_le_u32_roundtrip(v.len() as u32);
    lemma_holds_cat(b, p, le_u32(v.len() as u32), enc_usizes(v));
    lemma_u32_at(b, p, v.len() as u32);
    lemma_usizes_at(b, p + 4, v);
}

#[verifier::spinoff_prover]
pub proof fn lemma_triples_at(b: Seq<u8>, p: int, v: Seq<(usize, usize, usize)>)
    requires holds_at(b, p, enc_triples(v)), 3 * v.len() <= u32::MAX,
    ensures run_len_at(b, p, 3) == enc_triples(v).len(), triples_at(b, p) == v,
{
    lemma_le_u32_roundtrip(v.len() as u32);
    lemma_holds_cat(b, p, le_u32(v.len() as u32), enc_usizes(flat3(v)));
    lemma_u32_at(b, p, v.len() as u32);
    lemma_usizes_at(b, p + 4, flat3(v));
    let u = usizes_at(b, p + 4, flat3(v).len());
    assert(triples_at(b, p) =~= v) by {
        assert forall|i: int| 0 <= i < v.len() implies triples_at(b, p)[i] == v[i] by {
            assert((3 * i) % 3 == 0 && (3 * i) / 3 == i) by (nonlinear_arith);
            assert((3 * i + 1) % 3 == 1 && (3 * i + 1) / 3 == i) by (nonlinear_arith);
            assert((3 * i + 2) % 3 == 2 && (3 * i + 2) / 3 == i) by (nonlinear_arith);
            assert(3 * i + 2 < 3 * v.len()) by (nonlinear_arith) requires i < v.len();
            assert(u[3 * i] == flat3(v)[3 * i]);
            assert(u[3 * i + 1] == flat3(v)[3 * i + 1]);
            assert(u[3 * i + 2] == flat3(v)[3 * i + 2]);
            assert(p + 4 + 8 * (3 * i) == p + 4 + 24 * i);
            assert(p + 4 + 8 * (3 * i + 1) == p + 12 + 24 * i);
            assert(p + 4 + 8 * (3 * i + 2) == p + 20 + 24 * i);
        }
    }
}

#[verifier::spinoff_prover]
pub proof fn lemma_pairs_at(b: Seq<u8>, p: int, v: Seq<(usize, usize)>)
    requires holds_at(b, p, enc_pairs(v)), 2 * v.len() <= u32::MAX,
    ensures run_len_at(b, p, 2) == enc_pairs(v).len(), pairs_at(b, p) == v,
{
    lemma_le_u32_roundtrip(v.len() as u32);
    lemma_holds_cat(b, p, le_u32(v.len() as u32), enc_usizes(flat2(v)));
    lemma_u32_at(b, p, v.len() as u32);
    lemma_usizes_at(b, p + 4, flat2(v));
    let u = usizes_at(b, p + 4, flat2(v).len());
    assert(pairs_at(b, p) =~= v) by {
        assert forall|i: int| 0 <= i < v.len() implies pairs_at(b, p)[i] == v[i] by {
            assert((2 * i) % 2 == 0 && (2 * i) / 2 == i) by (nonlinear_arith);
            assert((2 * i + 1) % 2 == 1 && (2 * i + 1) / 2 == i) by (nonlinear_arith);
            assert(2 * i + 1 < 2 * v.len()) by (nonlinear_arith) requires i < v.len();
            assert(u[2 * i] == flat2(v)[2 * i]);
            assert(u[2 * i + 1] == flat2(v)[2 * i + 1]);
        }
    }
}

#[verifier::spinoff_prover]
pub proof fn lemma_storage_at(b: Seq<u8>, p: int, d: DType, bytes: Seq<u8>)
    requires holds_at(b, p, enc_storage(d, bytes)), bytes.len() <= u64::MAX,
    ensures
        storage_len_at(b, p) == enc_storage(d, bytes).len() == 9 + bytes.len(),
        dtype_of_tag(b[p]) == d,
        storage_bytes_at(b, p) == bytes,
{
    lemma_le_u64_roundtrip(bytes.len() as u64);
    let h = seq![tag_of_dtype(d)] + le_u64(bytes.len() as u64);
    assert(h.len() == 9);
    lemma_holds_cat(b, p, h, bytes);
    lemma_holds_cat(b, p, seq![tag_of_dtype(d)], le_u64(bytes.len() as u64));
    assert(holds_at(b, p + 9, bytes));
    lemma_u64_at(b, p + 1, bytes.len() as u64);
    assert(b.subrange(p, p + 1)[0] == b[p]);
    assert(b[p] == tag_of_dtype(d));
    lemma_dtype_tag(d);
}

#[verifier::spinoff_prover]
pub proof fn lemma_str_at(b: Seq<u8>, p: int, bytes: Seq<u8>)
    requires holds_at(b, p, enc_str(bytes)), bytes.len() <= u32::MAX, vstd::utf8::valid_utf8(bytes),
    ensures str_len_at(b, p) == enc_str(bytes).len() == 4 + bytes.len(), str_bytes_at(b, p) == bytes,
{
    lemma_le_u32_roundtrip(bytes.len() as u32);
    lemma_holds_cat(b, p, le_u32(bytes.len() as u32), bytes);
    lemma_u32_at(b, p, bytes.len() as u32);
}

} // verus!
