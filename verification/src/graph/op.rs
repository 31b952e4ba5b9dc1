//! IR data types: the closed primitive op set and the arena node.

use vstd::prelude::*;
use crate::dtype::DType;
use crate::storage::Storage;

verus! {

/// Index of a node in its graph's arena.
#[derive(Clone, Copy, PartialEq, Eq, Structural, Hash, Debug)]
pub struct NodeId(pub u32);

/// How scatter combines an update with the existing value at a target.
#[derive(Clone, Copy, PartialEq, Eq, Structural, Debug)]
pub enum ScatterOp {
    Assign,
    Add,
    Max,
    Min,
}

/// Whether `ArgReduce` returns the index of the max or the min along an axis.
#[derive(Clone, Copy, PartialEq, Eq, Structural, Debug)]
pub enum ArgKind {
    Max,
    Min,
}

/// The closed primitive op set. Floating-point attributes are held as their IEEE-754
/// binary32 bit patterns.
#[derive(Debug)]
pub enum Op {
    /// Baked data of the given shape.
    Const { data: Storage, shape: Vec<usize> },
    /// A value fed at eval time.
    Input { shape: Vec<usize>, dtype: DType },
    /// Index along `axis`.
    Iota { shape: Vec<usize>, axis: usize, dtype: DType },
    /// Counter-based uniform [0,1) F32 values; src = [seed].
    RandUniform { shape: Vec<usize> },
    Cast { to: DType },
    Bitcast { to: DType },
    /// Identity forward that stops the gradient.
    Detach,
    Add,
    Mul,
    Max,
    Neg,
    IDiv,
    And,
    Or,
    Xor,
    Shl,
    Shr,
    CmpLt,
    CmpEq,
    /// src = [cond, a, b]
    Where,
    Recip,
    Sqrt,
    Exp2,
    Log2,
    Sin,
    Floor,
    Sum { axis: usize },
    Prod { axis: usize },
    ReduceMax { axis: usize },
    ArgReduce { axis: usize, kind: ArgKind },
    Softmax { axis: usize },
    /// RMSNorm over `axis`; `eps_bits` is the f32 epsilon's bit pattern.
    RmsNorm { axis: usize, eps_bits: u32 },
    /// Fused scaled-dot-product attention; src = [q, k, v].
    Sdpa { causal: bool },
    Reshape { shape: Vec<usize> },
    Permute { perm: Vec<usize> },
    Expand { shape: Vec<usize> },
    /// Per-axis `[start, end)` by `step`.
    Slice { ranges: Vec<(usize, usize, usize)> },
    Flip { axes: Vec<usize> },
    /// Per-axis zero padding `(lo, hi)`.
    Pad { pads: Vec<(usize, usize)> },
    DotGeneral { lhs_contract: Vec<usize>, rhs_contract: Vec<usize>, lhs_batch: Vec<usize>, rhs_batch: Vec<usize> },
    /// src = [act, qweight, scales] (+ mins when not symmetric).
    QuantMatmul { bits: u8, group_size: usize, symmetric: bool },
    Solve,
    Det,
    Cholesky,
    Eigh,
    Qr { r_factor: bool },
    Eigvals,
    Complex,
    Real,
    Imag,
    Gather { axis: usize },
    Scatter { axis: usize, combine: ScatterOp },
    GatherAlong { axis: usize },
    ScatterAlong { axis: usize, combine: ScatterOp },
    Argsort { axis: usize, descending: bool },
}

/// One arena node: the op, its sources, and the dtype and shape inferred when it was pushed.
#[derive(Debug)]
pub struct Node {
    pub op: Op,
    pub dtype: DType,
    pub src: Vec<NodeId>,
    pub shape: Vec<usize>,
}

/// Equality of two ops by value (vector attributes compared by contents).
pub open spec fn op_eq(a: Op, b: Op) -> bool {
    match (a, b) {
        (Op::Const { data: d1, shape: s1 }, Op::Const { data: d2, shape: s2 }) =>
            d1.spec_dtype() == d2.spec_dtype() && d1.spec_bytes() == d2.spec_bytes() && s1@ == s2@,
        (Op::Input { shape: s1, dtype: t1 }, Op::Input { shape: s2, dtype: t2 }) => s1@ == s2@ && t1 == t2,
        (Op::Iota { shape: s1, axis: a1, dtype: t1 }, Op::Iota { shape: s2, axis: a2, dtype: t2 }) =>
            s1@ == s2@ && a1 == a2 && t1 == t2,
        (Op::RandUniform { shape: s1 }, Op::RandUniform { shape: s2 }) => s1@ == s2@,
        (Op::Reshape { shape: s1 }, Op::Reshape { shape: s2 }) => s1@ == s2@,
        (Op::Permute { perm: s1 }, Op::Permute { perm: s2 }) => s1@ == s2@,
        (Op::Expand { shape: s1 }, Op::Expand { shape: s2 }) => s1@ == s2@,
        (Op::Slice { ranges: s1 }, Op::Slice { ranges: s2 }) => s1@ == s2@,
        (Op::Flip { axes: s1 }, Op::Flip { axes: s2 }) => s1@ == s2@,
        (Op::Pad { pads: s1 }, Op::Pad { pads: s2 }) => s1@ == s2@,
        (
            Op::DotGeneral { lhs_contract: a1, rhs_contract: b1, lhs_batch: c1, rhs_batch: d1 },
            Op::DotGeneral { lhs_contract: a2, rhs_contract: b2, lhs_batch: c2, rhs_batch: d2 },
        ) => a1@ == a2@ && b1@ == b2@ && c1@ == c2@ && d1@ == d2@,
        (Op::Const { .. }, _) | (Op::Input { .. }, _) | (Op::Iota { .. }, _) | (Op::RandUniform { .. }, _)
        | (Op::Reshape { .. }, _) | (Op::Permute { .. }, _) | (Op::Expand { .. }, _) | (Op::Slice { .. }, _)
        | (Op::Flip { .. }, _) | (Op::Pad { .. }, _) | (Op::DotGeneral { .. }, _) => false,
        (a, b) => a == b,
    }
}

/// Copy a vector of plain values.
pub fn copy_vec<T: Copy>(v: &Vec<T>) -> (r: Vec<T>)
    ensures r@ == v@,
{
    let mut r: Vec<T> = Vec::new();
    let mut i: usize = 0;
    while i < v.len()
        invariant
            i <= v@.len(),
            r@ == v@.take(i as int),
        decreases v@.len() - i,
    {
        r.push(v[i]);
        i = i + 1;
        assert(r@ =~= v@.take(i as int));
    }
    assert(r@ =~= v@);
    r
}

impl Op {
    /// Elementwise ops: output shape is the first source's.
    pub open spec fn is_elementwise(self) -> bool {
        match self {
            Op::Detach | Op::Add | Op::Mul | Op::Max | Op::Neg | Op::Recip
            | Op::Sqrt | Op::Exp2 | Op::Log2 | Op::Sin | Op::Floor | Op::IDiv | Op::And | Op::Or | Op::Xor
            | Op::Shl | Op::Shr | Op::CmpLt | Op::CmpEq => true,
            _ => false,
        }
    }

    pub open spec fn is_compare(self) -> bool {
        matches!(self, Op::CmpLt | Op::CmpEq)
    }

    /// Duplicate the op.
    pub fn duplicate(&self) -> (r: Op)
        ensures op_eq(r, *self),
    {
        match self {
            Op::Const { data, shape } => {
                Op::Const { data: data.duplicate(), shape: copy_vec(shape) }
            },
            Op::Input { shape, dtype } => Op::Input { shape: copy_vec(shape), dtype: *dtype },
            Op::Iota { shape, axis, dtype } => Op::Iota { shape: copy_vec(shape), axis: *axis, dtype: *dtype },
            Op::RandUniform { shape } => Op::RandUniform { shape: copy_vec(shape) },
            Op::Cast { to } => Op::Cast { to: *to },
            Op::Bitcast { to } => Op::Bitcast { to: *to },
            Op::Detach => Op::Detach,
            Op::Add => Op::Add,
            Op::Mul => Op::Mul,
            Op::Max => Op::Max,
            Op::Neg => Op::Neg,
            Op::IDiv => Op::IDiv,
            Op::And => Op::And,
            Op::Or => Op::Or,
            Op::Xor => Op::Xor,
            Op::Shl => Op::Shl,
            Op::Shr => Op::Shr,
            Op::CmpLt => Op::CmpLt,
            Op::CmpEq => Op::CmpEq,
            Op::Where => Op::Where,
            Op::Recip => Op::Recip,
            Op::Sqrt => Op::Sqrt,
            Op::Exp2 => Op::Exp2,
            Op::Log2 => Op::Log2,
            Op::Sin => Op::Sin,
            Op::Floor => Op::Floor,
            Op::Sum { axis } => Op::Sum { axis: *axis },
            Op::Prod { axis } => Op::Prod { axis: *axis },
            Op::ReduceMax { axis } => Op::ReduceMax { axis: *axis },
            Op::ArgReduce { axis, kind } => Op::ArgReduce { axis: *axis, kind: *kind },
            Op::Softmax { axis } => Op::Softmax { axis: *axis },
            Op::RmsNorm { axis, eps_bits } => Op::RmsNorm { axis: *axis, eps_bits: *eps_bits },
            Op::Sdpa { causal } => Op::Sdpa { causal: *causal },
            Op::Reshape { shape } => Op::Reshape { shape: copy_vec(shape) },
            Op::Permute { perm } => Op::Permute { perm: copy_vec(perm) },
            Op::Expand { shape } => Op::Expand { shape: copy_vec(shape) },
            Op::Slice { ranges } => Op::Slice { ranges: copy_vec(ranges) },
            Op::Flip { axes } => Op::Flip { axes: copy_vec(axes) },
            Op::Pad { pads } => Op::Pad { pads: copy_vec(pads) },
            Op::DotGeneral { lhs_contract, rhs_contract, lhs_batch, rhs_batch } => Op::DotGeneral {
                lhs_contract: copy_vec(lhs_contract),
                rhs_contract: copy_vec(rhs_contract),
                lhs_batch: copy_vec(lhs_batch),
                rhs_batch: copy_vec(rhs_batch),
            },
            Op::QuantMatmul { bits, group_size, symmetric } =>
                Op::QuantMatmul { bits: *bits, group_size: *group_size, symmetric: *symmetric },
            Op::Solve => Op::Solve,
            Op::Det => Op::Det,
            Op::Cholesky => Op::Cholesky,
            Op::Eigh => Op::Eigh,
            Op::Qr { r_factor } => Op::Qr { r_factor: *r_factor },
            Op::Eigvals => Op::Eigvals,
            Op::Complex => Op::Complex,
            Op::Real => Op::Real,
            Op::Imag => Op::Imag,
            Op::Gather { axis } => Op::Gather { axis: *axis },
            Op::Scatter { axis, combine } => Op::Scatter { axis: *axis, combine: *combine },
            Op::GatherAlong { axis } => Op::GatherAlong { axis: *axis },
            Op::ScatterAlong { axis, combine } => Op::ScatterAlong { axis: *axis, combine: *combine },
            Op::Argsort { axis, descending } => Op::Argsort { axis: *axis, descending: *descending },
        }
    }
}

} // verus!

verus! {

pub proof fn lemma_op_eq_refl(o: Op)
    ensures op_eq(o, o),
{
}

} // verus!
