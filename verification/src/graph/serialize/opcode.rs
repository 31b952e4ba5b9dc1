//! The per-op wire format: a tag byte, then the op's attributes in declaration order.
//! `enc_op` is what the encoder writes, `op_len_at` how many bytes a decoder consumes at an
//! offset (or -1 for a malformed op), and `decodes_to` which op those bytes describe.

use vstd::prelude::*;
use crate::bytes::{le_u32, le_u64, lemma_le_u64_roundtrip};
use crate::dtype::DType;
use crate::graph::op::{op_eq, Op};
use crate::graph::shape::numel;
use crate::graph::serialize::wire::{
    argkind_of_tag, dtype_of_tag, enc_bool, enc_pairs, enc_storage, enc_triples, enc_usize, enc_vec, fixed_len_at,
    holds_at, lemma_dtype_tag, lemma_holds_cat, lemma_pairs_at, lemma_storage_at, lemma_triples_at, lemma_u32_at,
    lemma_u64_at, lemma_usize_at, lemma_vec_at, pairs_at, plus, run_len_at, scatter_of_tag, storage_bytes_at,
    storage_len_at, tag_len_at, tag_of_argkind, tag_of_dtype, tag_of_scatter, triples_at, u32_at, u64_at, usize_at,
    vec_at,
};

verus! {

/// The op's tag byte.
pub open spec fn op_tag(op: Op) -> u8 {
    match op {
        Op::Const { .. } => 0,
        Op::Input { .. } => 1,
        Op::Iota { .. } => 2,
        Op::RandUniform { .. } => 3,
        Op::Cast { .. } => 4,
        Op::Bitcast { .. } => 5,
        Op::Detach => 6,
        Op::Add => 7,
        Op::Mul => 8,
        Op::Max => 9,
        Op::Neg => 10,
        Op::IDiv => 11,
        Op::And => 12,
        Op::Or => 13,
        Op::Xor => 14,
        Op::Shl => 15,
        Op::Shr => 16,
        Op::CmpLt => 17,
        Op::CmpEq => 18,
        Op::Where => 19,
        Op::Recip => 20,
        Op::Sqrt => 21,
        Op::Exp2 => 22,
        Op::Log2 => 23,
        Op::Sin => 24,
        Op::Floor => 25,
        Op::Sum { .. } => 26,
        Op::Prod { .. } => 27,
        Op::ReduceMax { .. } => 28,
        Op::ArgReduce { .. } => 29,
        Op::Softmax { .. } => 30,
        Op::RmsNorm { .. } => 31,
        Op::Sdpa { .. } => 32,
        Op::Reshape { .. } => 33,
        Op::Permute { .. } => 34,
        Op::Expand { .. } => 35,
        Op::Slice { .. } => 36,
        Op::Flip { .. } => 37,
        Op::Pad { .. } => 38,
        Op::DotGeneral { .. } => 39,
        Op::QuantMatmul { .. } => 40,
        Op::Solve => 41,
        Op::Det => 42,
        Op::Cholesky => 43,
        Op::Eigh => 44,
        Op::Qr { .. } => 45,
        Op::Eigvals => 46,
        Op::Complex => 47,
        Op::Real => 48,
        Op::Imag => 49,
        Op::Gather { .. } => 50,
        Op::Scatter { .. } => 51,
        Op::GatherAlong { .. } => 52,
        Op::ScatterAlong { .. } => 53,
        Op::Argsort { .. } => 54,
    }
}

/// The op's attributes as written after its tag.
pub open spec fn op_body(op: Op) -> Seq<u8> {
    match op {
        Op::Const { data, shape } => enc_storage(data.spec_dtype(), data.spec_bytes()) + enc_vec(shape@),
        Op::Input { shape, dtype } => enc_vec(shape@) + seq![tag_of_dtype(dtype)],
        Op::Iota { shape, axis, dtype } => enc_vec(shape@) + enc_usize(axis) + seq![tag_of_dtype(dtype)],
        Op::RandUniform { shape } => enc_vec(shape@),
        Op::Cast { to } | Op::Bitcast { to } => seq![tag_of_dtype(to)],
        Op::Sum { axis } | Op::Prod { axis } | Op::ReduceMax { axis } | Op::Softmax { axis }
        | Op::Gather { axis } | Op::GatherAlong { axis } => enc_usize(axis),
        Op::ArgReduce { axis, kind } => enc_usize(axis) + seq![tag_of_argkind(kind)],
        Op::RmsNorm { axis, eps_bits } => enc_usize(axis) + le_u32(eps_bits),
        Op::Sdpa { causal } => enc_bool(causal),
        Op::Reshape { shape } | Op::Expand { shape } => enc_vec(shape@),
        Op::Permute { perm } => enc_vec(perm@),
        Op::Flip { axes } => enc_vec(axes@),
        Op::Slice { ranges } => enc_triples(ranges@),
        Op::Pad { pads } => enc_pairs(pads@),
        Op::DotGeneral { lhs_contract, rhs_contract, lhs_batch, rhs_batch } =>
            enc_vec(lhs_contract@) + enc_vec(rhs_contract@) + enc_vec(lhs_batch@) + enc_vec(rhs_batch@),
        Op::QuantMatmul { bits, group_size, symmetric } => seq![bits] + enc_usize(group_size) + enc_bool(symmetric),
        Op::Qr { r_factor } => enc_bool(r_factor),
        Op::Scatter { axis, combine } | Op::ScatterAlong { axis, combine } =>
            enc_usize(axis) + seq![tag_of_scatter(combine)],
        Op::Argsort { axis, descending } => enc_usize(axis) + enc_bool(descending),
        _ => Seq::empty(),
    }
}

/// The bytes the encoder writes for `op`.
pub open spec fn enc_op(op: Op) -> Seq<u8> {
    seq![op_tag(op)] + op_body(op)
}

/// Every counted attribute fits its u32 count, and a constant holds whole elements.
pub open spec fn encodable(op: Op) -> bool {
    match op {
        Op::Const { data, shape } => data.wf() && data.spec_bytes().len() <= u64::MAX && shape@.len() <= u32::MAX,
        Op::Input { shape, .. } | Op::Iota { shape, .. } | Op::RandUniform { shape } | Op::Reshape { shape }
        | Op::Expand { shape } => shape@.len() <= u32::MAX,
        Op::Permute { perm } => perm@.len() <= u32::MAX,
        Op::Flip { axes } => axes@.len() <= u32::MAX,
        Op::Slice { ranges } => 3 * ranges@.len() <= u32::MAX,
        Op::Pad { pads } => 2 * pads@.len() <= u32::MAX,
        Op::DotGeneral { lhs_contract, rhs_contract, lhs_batch, rhs_batch } =>
            lhs_contract@.len() <= u32::MAX && rhs_contract@.len() <= u32::MAX && lhs_batch@.len() <= u32::MAX
                && rhs_batch@.len() <= u32::MAX,
        _ => true,
    }
}

/// A constant's payload holds exactly as many elements as its shape.
pub open spec fn const_fits(op: Op) -> bool {
    match op {
        Op::Const { data, shape } => data.spec_len() == numel(shape@),
        _ => true,
    }
}

/// Bytes the attributes of an op with tag `tag` occupy at `q`, or -1.
pub open spec fn body_len_at(b: Seq<u8>, q: int, tag: u8) -> int {
    if tag == 0 {
        let a = storage_len_at(b, q);
        plus(a, run_len_at(b, q + a, 1))
    } else if tag == 1 {
        let a = run_len_at(b, q, 1);
        plus(a, tag_len_at(b, q + a, 16))
    } else if tag == 2 {
        let a = run_len_at(b, q, 1);
        plus(a, plus(fixed_len_at(b, q + a, 8), tag_len_at(b, q + a + 8, 16)))
    } else if tag == 3 || tag == 33 || tag == 34 || tag == 35 || tag == 37 {
        run_len_at(b, q, 1)
    } else if tag == 4 || tag == 5 {
        tag_len_at(b, q, 16)
    } else if (6 <= tag && tag <= 25) || (41 <= tag && tag <= 44) || (46 <= tag && tag <= 49) {
        0
    } else if tag == 26 || tag == 27 || tag == 28 || tag == 30 || tag == 50 || tag == 52 {
        fixed_len_at(b, q, 8)
    } else if tag == 29 {
        plus(fixed_len_at(b, q, 8), tag_len_at(b, q + 8, 1))
    } else if tag == 31 {
        plus(fixed_len_at(b, q, 8), fixed_len_at(b, q + 8, 4))
    } else if tag == 32 || tag == 45 {
        fixed_len_at(b, q, 1)
    } else if tag == 36 {
        run_len_at(b, q, 3)
    } else if tag == 38 {
        run_len_at(b, q, 2)
    } else if tag == 39 {
        let a1 = run_len_at(b, q, 1);
        let a2 = run_len_at(b, q + a1, 1);
        let a3 = run_len_at(b, q + a1 + a2, 1);
        plus(a1, plus(a2, plus(a3, run_len_at(b, q + a1 + a2 + a3, 1))))
    } else if tag == 40 {
        plus(fixed_len_at(b, q, 1), plus(fixed_len_at(b, q + 1, 8), fixed_len_at(b, q + 9, 1)))
    } else if tag == 51 || tag == 53 {
        plus(fixed_len_at(b, q, 8), tag_len_at(b, q + 8, 3))
    } else if tag == 54 {
        plus(fixed_len_at(b, q, 8), fixed_len_at(b, q + 8, 1))
    } else {
        -1
    }
}

/// Bytes a well-formed op occupies at `p`, or -1.
pub open spec fn op_len_at(b: Seq<u8>, p: int) -> int {
    if 0 <= p < b.len() { plus(1, body_len_at(b, p + 1, b[p])) } else { -1 }
}

/// The whole elements of a payload (a trailing partial element is dropped).
pub open spec fn whole(bytes: Seq<u8>, d: DType) -> Seq<u8> {
    bytes.take(bytes.len() - bytes.len() % d.spec_size())
}

/// A constant at `p` has as many whole payload elements as its shape needs.
pub open spec fn const_ok_at(b: Seq<u8>, p: int) -> bool {
    b[p] == 0 ==> {
        let q = p + 1;
        let n = u64_at(b, q + 1) as int;
        n / (dtype_of_tag(b[q]).spec_size() as int) == numel(vec_at(b, q + 9 + n))
    }
}

/// The op the well-formed bytes at `p` describe is `op`.
pub open spec fn decodes_to(b: Seq<u8>, p: int, op: Op) -> bool {
    b[p] == op_tag(op) && attrs_at(b, p + 1, op)
}

/// The attributes at `q` are `op`'s.
pub open spec fn attrs_at(b: Seq<u8>, q: int, op: Op) -> bool {
    match op {
        Op::Const { data, shape } =>
            data.spec_dtype() == dtype_of_tag(b[q]) && data.spec_bytes() == whole(storage_bytes_at(b, q), data.spec_dtype())
                && shape@ == vec_at(b, q + storage_len_at(b, q)),
        Op::Input { shape, dtype } => shape@ == vec_at(b, q) && dtype == dtype_of_tag(b[q + run_len_at(b, q, 1)]),
        Op::Iota { shape, axis, dtype } =>
            shape@ == vec_at(b, q) && axis == usize_at(b, q + run_len_at(b, q, 1))
                && dtype == dtype_of_tag(b[q + run_len_at(b, q, 1) + 8]),
        Op::RandUniform { shape } | Op::Reshape { shape } | Op::Expand { shape } => shape@ == vec_at(b, q),
        Op::Permute { perm } => perm@ == vec_at(b, q),
        Op::Flip { axes } => axes@ == vec_at(b, q),
        Op::Cast { to } | Op::Bitcast { to } => to == dtype_of_tag(b[q]),
        Op::Sum { axis } | Op::Prod { axis } | Op::ReduceMax { axis } | Op::Softmax { axis }
        | Op::Gather { axis } | Op::GatherAlong { axis } => axis == usize_at(b, q),
        Op::ArgReduce { axis, kind } => axis == usize_at(b, q) && kind == argkind_of_tag(b[q + 8]),
        Op::RmsNorm { axis, eps_bits } => axis == usize_at(b, q) && eps_bits == u32_at(b, q + 8),
        Op::Sdpa { causal } => causal == (b[q] != 0),
        Op::Qr { r_factor } => r_factor == (b[q] != 0),
        Op::Slice { ranges } => ranges@ == triples_at(b, q),
        Op::Pad { pads } => pads@ == pairs_at(b, q),
        Op::DotGeneral { lhs_contract, rhs_contract, lhs_batch, rhs_batch } => {
            let a1 = run_len_at(b, q, 1);
            let a2 = run_len_at(b, q + a1, 1);
            let a3 = run_len_at(b, q + a1 + a2, 1);
            &&& lhs_contract@ == vec_at(b, q)
            &&& rhs_contract@ == vec_at(b, q + a1)
            &&& lhs_batch@ == vec_at(b, q + a1 + a2)
            &&& rhs_batch@ == vec_at(b, q + a1 + a2 + a3)
        },
        Op::QuantMatmul { bits, group_size, symmetric } =>
            bits == b[q] && group_size == usize_at(b, q + 1) && symmetric == (b[q + 9] != 0),
        Op::Scatter { axis, combine } | Op::ScatterAlong { axis, combine } =>
            axis == usize_at(b, q) && combine == scatter_of_tag(b[q + 8]),
        Op::Argsort { axis, descending } => axis == usize_at(b, q) && descending == (b[q + 8] != 0),
        _ => true,
    }
}

/// Two ops that the same bytes describe are equal.
pub proof fn lemma_decodes_functional(b: Seq<u8>, p: int, x: Op, y: Op)
    requires decodes_to(b, p, x), decodes_to(b, p, y),
    ensures op_eq(x, y),
{
}

proof fn lemma_byte(b: Seq<u8>, p: int, t: u8)
    requires holds_at(b, p, seq![t]),
    ensures 0 <= p < b.len(), b[p] == t,
{
    assert(b.subrange(p, p + 1)[0] == b[p]);
}

#[verifier::spinoff_prover]
proof fn rt_const(o: Op, b: Seq<u8>, p: int)
    requires holds_at(b, p, enc_op(o)), encodable(o), o is Const,
    ensures
        op_len_at(b, p) == enc_op(o).len(),
        decodes_to(b, p, o),
        const_fits(o) ==> const_ok_at(b, p),
{
    let q = p + 1;
    lemma_holds_cat(b, p, seq![op_tag(o)], op_body(o));
    lemma_byte(b, p, op_tag(o));
    match o {
        Op::Const { data, shape } => {
            let n = data.spec_bytes().len();
            let s = enc_storage(data.spec_dtype(), data.spec_bytes());
            lemma_holds_cat(b, q, s, enc_vec(shape@));
            lemma_storage_at(b, q, data.spec_dtype(), data.spec_bytes());
            lemma_vec_at(b, q + s.len(), shape@);
            lemma_le_u64_roundtrip(n as u64);
            assert(whole(data.spec_bytes(), data.spec_dtype()) =~= data.spec_bytes());
            assert(u64_at(b, q + 1) == n) by {
                lemma_holds_cat(b, q, seq![tag_of_dtype(data.spec_dtype())] + le_u64(n as u64), data.spec_bytes());
                lemma_holds_cat(b, q, seq![tag_of_dtype(data.spec_dtype())], le_u64(n as u64));
                lemma_u64_at(b, q + 1, n as u64);
            }
        },
        _ => {},
    }
}

#[verifier::spinoff_prover]
proof fn rt_input(o: Op, b: Seq<u8>, p: int)
    requires holds_at(b, p, enc_op(o)), encodable(o), o is Input,
    ensures
        op_len_at(b, p) == enc_op(o).len(),
        decodes_to(b, p, o),
        const_fits(o) ==> const_ok_at(b, p),
{
    let q = p + 1;
    lemma_holds_cat(b, p, seq![op_tag(o)], op_body(o));
    lemma_byte(b, p, op_tag(o));
    match o {
        Op::Input { shape, dtype } => {
            lemma_holds_cat(b, q, enc_vec(shape@), seq![tag_of_dtype(dtype)]);
            lemma_vec_at(b, q, shape@);
            lemma_byte(b, q + enc_vec(shape@).len(), tag_of_dtype(dtype));
            lemma_dtype_tag(dtype);
        },
        _ => {},
    }
}

#[verifier::spinoff_prover]
proof fn rt_iota(o: Op, b: Seq<u8>, p: int)
    requires holds_at(b, p, enc_op(o)), encodable(o), o is Iota,
    ensures
        op_len_at(b, p) == enc_op(o).len(),
        decodes_to(b, p, o),
        const_fits(o) ==> const_ok_at(b, p),
{
    let q = p + 1;
    lemma_holds_cat(b, p, seq![op_tag(o)], op_body(o));
    lemma_byte(b, p, op_tag(o));
    match o {
        Op::Iota { shape, axis, dtype } => {
            let v = enc_vec(shape@);
            lemma_holds_cat(b, q, v + enc_usize(axis), seq![tag_of_dtype(dtype)]);
            lemma_holds_cat(b, q, v, enc_usize(axis));
            lemma_vec_at(b, q, shape@);
            lemma_usize_at(b, q + v.len(), axis);
            lemma_le_u64_roundtrip(axis as u64);
            lemma_byte(b, q + v.len() + 8, tag_of_dtype(dtype));
            lemma_dtype_tag(dtype);
        },
        _ => {},
    }
}

#[verifier::spinoff_prover]
proof fn rt_vec1(o: Op, b: Seq<u8>, p: int)
    requires holds_at(b, p, enc_op(o)), encodable(o), (o is RandUniform || o is Reshape || o is Expand || o is Permute || o is Flip),
    ensures
        op_len_at(b, p) == enc_op(o).len(),
        decodes_to(b, p, o),
        const_fits(o) ==> const_ok_at(b, p),
{
    let q = p + 1;
    lemma_holds_cat(b, p, seq![op_tag(o)], op_body(o));
    lemma_byte(b, p, op_tag(o));
    match o {
        Op::RandUniform { shape } | Op::Reshape { shape } | Op::Expand { shape } => {
            lemma_vec_at(b, q, shape@);
        },
        Op::Permute { perm } => {
            lemma_vec_at(b, q, perm@);
        },
        Op::Flip { axes } => {
            lemma_vec_at(b, q, axes@);
        },
        _ => {},
    }
}

#[verifier::spinoff_prover]
proof fn rt_dtype(o: Op, b: Seq<u8>, p: int)
    requires holds_at(b, p, enc_op(o)), encodable(o), (o is Cast || o is Bitcast),
    ensures
        op_len_at(b, p) == enc_op(o).len(),
        decodes_to(b, p, o),
        const_fits(o) ==> const_ok_at(b, p),
{
    let q = p + 1;
    lemma_holds_cat(b, p, seq![op_tag(o)], op_body(o));
    lemma_byte(b, p, op_tag(o));
    match o {
        Op::Cast { to } | Op::Bitcast { to } => {
            lemma_byte(b, q, tag_of_dtype(to));
            lemma_dtype_tag(to);
        },
        _ => {},
    }
}

#[verifier::spinoff_prover]
proof fn rt_axis(o: Op, b: Seq<u8>, p: int)
    requires holds_at(b, p, enc_op(o)), encodable(o), (o is Sum || o is Prod || o is ReduceMax || o is Softmax || o is Gather || o is GatherAlong),
    ensures
        op_len_at(b, p) == enc_op(o).len(),
        decodes_to(b, p, o),
        const_fits(o) ==> const_ok_at(b, p),
{
    let q = p + 1;
    lemma_holds_cat(b, p, seq![op_tag(o)], op_body(o));
    lemma_byte(b, p, op_tag(o));
    match o {
        Op::Sum { axis } | Op::Prod { axis } | Op::ReduceMax { axis } | Op::Softmax { axis }
        | Op::Gather { axis } | Op::GatherAlong { axis } => {
            lemma_usize_at(b, q, axis);
            lemma_le_u64_roundtrip(axis as u64);
        },
        _ => {},
    }
}

#[verifier::spinoff_prover]
proof fn rt_argreduce(o: Op, b: Seq<u8>, p: int)
    requires holds_at(b, p, enc_op(o)), encodable(o), o is ArgReduce,
    ensures
        op_len_at(b, p) == enc_op(o).len(),
        decodes_to(b, p, o),
        const_fits(o) ==> const_ok_at(b, p),
{
    let q = p + 1;
    lemma_holds_cat(b, p, seq![op_tag(o)], op_body(o));
    lemma_byte(b, p, op_tag(o));
    match o {
        Op::ArgReduce { axis, kind } => {
            lemma_holds_cat(b, q, enc_usize(axis), seq![tag_of_argkind(kind)]);
            lemma_usize_at(b, q, axis);
            lemma_le_u64_roundtrip(axis as u64);
            lemma_byte(b, q + 8, tag_of_argkind(kind));
        },
        _ => {},
    }
}

#[verifier::spinoff_prover]
proof fn rt_rmsnorm(o: Op, b: Seq<u8>, p: int)
    requires holds_at(b, p, enc_op(o)), encodable(o), o is RmsNorm,
    ensures
        op_len_at(b, p) == enc_op(o).len(),
        decodes_to(b, p, o),
        const_fits(o) ==> const_ok_at(b, p),
{
    let q = p + 1;
    lemma_holds_cat(b, p, seq![op_tag(o)], op_body(o));
    lemma_byte(b, p, op_tag(o));
    match o {
        Op::RmsNorm { axis, eps_bits } => {
            lemma_holds_cat(b, q, enc_usize(axis), le_u32(eps_bits));
            lemma_usize_at(b, q, axis);
            lemma_le_u64_roundtrip(axis as u64);
            lemma_u32_at(b, q + 8, eps_bits);
        },
        _ => {},
    }
}

#[verifier::spinoff_prover]
proof fn rt_flag(o: Op, b: Seq<u8>, p: int)
    requires holds_at(b, p, enc_op(o)), encodable(o), (o is Sdpa || o is Qr),
    ensures
        op_len_at(b, p) == enc_op(o).len(),
        decodes_to(b, p, o),
        const_fits(o) ==> const_ok_at(b, p),
{
    let q = p + 1;
    lemma_holds_cat(b, p, seq![op_tag(o)], op_body(o));
    lemma_byte(b, p, op_tag(o));
    match o {
        Op::Sdpa { causal } => {
            lemma_byte(b, q, if causal { 1u8 } else { 0u8 });
        },
        Op::Qr { r_factor } => {
            lemma_byte(b, q, if r_factor { 1u8 } else { 0u8 });
        },
        _ => {},
    }
}

#[verifier::spinoff_prover]
proof fn rt_ranges(o: Op, b: Seq<u8>, p: int)
    requires holds_at(b, p, enc_op(o)), encodable(o), (o is Slice || o is Pad),
    ensures
        op_len_at(b, p) == enc_op(o).len(),
        decodes_to(b, p, o),
        const_fits(o) ==> const_ok_at(b, p),
{
    let q = p + 1;
    lemma_holds_cat(b, p, seq![op_tag(o)], op_body(o));
    lemma_byte(b, p, op_tag(o));
    match o {
        Op::Slice { ranges } => {
            lemma_triples_at(b, q, ranges@);
        },
        Op::Pad { pads } => {
            lemma_pairs_at(b, q, pads@);
        },
        _ => {},
    }
}

#[verifier::spinoff_prover]
proof fn rt_dot(o: Op, b: Seq<u8>, p: int)
    requires holds_at(b, p, enc_op(o)), encodable(o), o is DotGeneral,
    ensures
        op_len_at(b, p) == enc_op(o).len(),
        decodes_to(b, p, o),
        const_fits(o) ==> const_ok_at(b, p),
{
    let q = p + 1;
    lemma_holds_cat(b, p, seq![op_tag(o)], op_body(o));
    lemma_byte(b, p, op_tag(o));
    match o {
        Op::DotGeneral { lhs_contract, rhs_contract, lhs_batch, rhs_batch } => {
            let v1 = enc_vec(lhs_contract@);
            let v2 = enc_vec(rhs_contract@);
            let v3 = enc_vec(lhs_batch@);
            let v4 = enc_vec(rhs_batch@);
            lemma_holds_cat(b, q, v1 + v2 + v3, v4);
            lemma_holds_cat(b, q, v1 + v2, v3);
            lemma_holds_cat(b, q, v1, v2);
            lemma_vec_at(b, q, lhs_contract@);
            lemma_vec_at(b, q + v1.len(), rhs_contract@);
            lemma_vec_at(b, q + v1.len() + v2.len(), lhs_batch@);
            lemma_vec_at(b, q + v1.len() + v2.len() + v3.len(), rhs_batch@);
        },
        _ => {},
    }
}

#[verifier::spinoff_prover]
proof fn rt_quant(o: Op, b: Seq<u8>, p: int)
    requires holds_at(b, p, enc_op(o)), encodable(o), o is QuantMatmul,
    ensures
        op_len_at(b, p) == enc_op(o).len(),
        decodes_to(b, p, o),
        const_fits(o) ==> const_ok_at(b, p),
{
    let q = p + 1;
    lemma_holds_cat(b, p, seq![op_tag(o)], op_body(o));
    lemma_byte(b, p, op_tag(o));
    match o {
        Op::QuantMatmul { bits, group_size, symmetric } => {
            lemma_holds_cat(b, q, seq![bits] + enc_usize(group_size), enc_bool(symmetric));
            lemma_holds_cat(b, q, seq![bits], enc_usize(group_size));
            lemma_byte(b, q, bits);
            lemma_usize_at(b, q + 1, group_size);
            lemma_le_u64_roundtrip(group_size as u64);
            lemma_byte(b, q + 9, if symmetric { 1u8 } else { 0u8 });
        },
        _ => {},
    }
}

#[verifier::spinoff_prover]
proof fn rt_scatter(o: Op, b: Seq<u8>, p: int)
    requires holds_at(b, p, enc_op(o)), encodable(o), (o is Scatter || o is ScatterAlong),
    ensures
        op_len_at(b, p) == enc_op(o).len(),
        decodes_to(b, p, o),
        const_fits(o) ==> const_ok_at(b, p),
{
    let q = p + 1;
    lemma_holds_cat(b, p, seq![op_tag(o)], op_body(o));
    lemma_byte(b, p, op_tag(o));
    match o {
        Op::Scatter { axis, combine } | Op::ScatterAlong { axis, combine } => {
            lemma_holds_cat(b, q, enc_usize(axis), seq![tag_of_scatter(combine)]);
            lemma_usize_at(b, q, axis);
            lemma_le_u64_roundtrip(axis as u64);
            lemma_byte(b, q + 8, tag_of_scatter(combine));
        },
        _ => {},
    }
}

#[verifier::spinoff_prover]
proof fn rt_argsort(o: Op, b: Seq<u8>, p: int)
    requires holds_at(b, p, enc_op(o)), encodable(o), o is Argsort,
    ensures
        op_len_at(b, p) == enc_op(o).len(),
        decodes_to(b, p, o),
        const_fits(o) ==> const_ok_at(b, p),
{
    let q = p + 1;
    lemma_holds_cat(b, p, seq![op_tag(o)], op_body(o));
    lemma_byte(b, p, op_tag(o));
    match o {
        Op::Argsort { axis, descending } => {
            lemma_holds_cat(b, q, enc_usize(axis), enc_bool(descending));
            lemma_usize_at(b, q, axis);
            lemma_le_u64_roundtrip(axis as u64);
            lemma_byte(b, q + 8, if descending { 1u8 } else { 0u8 });
        },
        _ => {},
    }
}

#[verifier::spinoff_prover]
proof fn rt_plain(o: Op, b: Seq<u8>, p: int)
    requires holds_at(b, p, enc_op(o)), op_body(o).len() == 0 && !(o is Const || o is Input || o is Iota || o is RandUniform || o is Reshape || o is Expand || o is Permute || o is Flip || o is Cast || o is Bitcast || o is Sum || o is Prod || o is ReduceMax || o is Softmax || o is Gather || o is GatherAlong || o is ArgReduce || o is RmsNorm || o is Sdpa || o is Qr || o is Slice || o is Pad || o is DotGeneral || o is QuantMatmul || o is Scatter || o is ScatterAlong || o is Argsort),
    ensures
        op_len_at(b, p) == enc_op(o).len(),
        decodes_to(b, p, o),
        const_fits(o) ==> const_ok_at(b, p),
{
    lemma_holds_cat(b, p, seq![op_tag(o)], op_body(o));
    lemma_byte(b, p, op_tag(o));
}

/// A reader at an encoded op finds its full length, the op itself, and (for a constant
/// whose payload fits its shape) a fitting payload.
pub proof fn lemma_op_round_trip(o: Op, b: Seq<u8>, p: int)
    requires holds_at(b, p, enc_op(o)), encodable(o),
    ensures
        op_len_at(b, p) == enc_op(o).len(),
        decodes_to(b, p, o),
        const_fits(o) ==> const_ok_at(b, p),
{
    match o {
        Op::Const { .. } => rt_const(o, b, p),
        Op::Input { .. } => rt_input(o, b, p),
        Op::Iota { .. } => rt_iota(o, b, p),
        Op::RandUniform { .. } | Op::Reshape { .. } | Op::Expand { .. } | Op::Permute { .. } | Op::Flip { .. } => rt_vec1(o, b, p),
        Op::Cast { .. } | Op::Bitcast { .. } => rt_dtype(o, b, p),
        Op::Sum { .. } | Op::Prod { .. } | Op::ReduceMax { .. } | Op::Softmax { .. } | Op::Gather { .. }
        | Op::GatherAlong { .. } => rt_axis(o, b, p),
        Op::ArgReduce { .. } => rt_argreduce(o, b, p),
        Op::RmsNorm { .. } => rt_rmsnorm(o, b, p),
        Op::Sdpa { .. } | Op::Qr { .. } => rt_flag(o, b, p),
        Op::Slice { .. } | Op::Pad { .. } => rt_ranges(o, b, p),
        Op::DotGeneral { .. } => rt_dot(o, b, p),
        Op::QuantMatmul { .. } => rt_quant(o, b, p),
        Op::Scatter { .. } | Op::ScatterAlong { .. } => rt_scatter(o, b, p),
        Op::Argsort { .. } => rt_argsort(o, b, p),
        _ => rt_plain(o, b, p),
    }
}

} // verus!
