//! Executable shape/dtype derivation and its definedness check.

use vstd::prelude::*;
use crate::dtype::DType;
use crate::graph::Graph;
use crate::graph::op::{NodeId, Op};
use crate::graph::infer::{ins_of, derive_shape, derive_dtype, srcs_below, min_src, free_upto, contains_usize, ceil_div, lemma_free_upto_below};

verus! {

/// Whether `x` occurs in `v`.
pub proof fn lemma_ceil_div(a: int, b: int)
    requires 0 <= a <= usize::MAX, b >= 1,
    ensures
        a % b != 0 ==> a / b < usize::MAX,
        ceil_div(a, b) == if a % b == 0 { a / b } else { a / b + 1 },
{
    let q = a / b;
    let r = a % b;
    vstd::arithmetic::div_mod::lemma_fundamental_div_mod(a, b);
    if r == 0 {
        assert(a + b - 1 == q * b + (b - 1));
        vstd::arithmetic::div_mod::lemma_fundamental_div_mod_converse(a + b - 1, b, q, b - 1);
    } else {
        assert(a + b - 1 == (q + 1) * b + (r - 1)) by (nonlinear_arith)
            requires a == q * b + r;
        vstd::arithmetic::div_mod::lemma_fundamental_div_mod_converse(a + b - 1, b, q + 1, r - 1);
        assert(b >= 2);
        assert(q * b <= a);
        assert(q * 2 <= q * b) by (nonlinear_arith) requires b >= 2, q >= 0;
    }
}

/// Whether `x` occurs in `v`.
pub fn contains(v: &Vec<usize>, x: usize) -> (b: bool)
    ensures b == contains_usize(v@, x),
{
    let mut i: usize = 0;
    while i < v.len()
        invariant
            i <= v@.len(),
            forall|k: int| 0 <= k < i ==> v@[k] != x,
        decreases v@.len() - i,
    {
        if v[i] == x {
            return true;
        }
        i = i + 1;
    }
    false
}

/// Axes of `0..rank` that are neither batch nor contract axes, ascending.
pub fn free_axes(rank: usize, batch: &Vec<usize>, contract: &Vec<usize>) -> (r: Vec<usize>)
    ensures r@ == free_upto(batch@, contract@, rank as nat),
{
    let mut r: Vec<usize> = Vec::new();
    let mut i: usize = 0;
    while i < rank
        invariant
            i <= rank,
            r@ == free_upto(batch@, contract@, i as nat),
        decreases rank - i,
    {
        if !contains(batch, i) && !contains(contract, i) {
            r.push(i);
        }
        i = i + 1;
    }
    r
}

/// `v` mapped through `s` (`out[k] = s[v[k]]`).
pub fn gather_dims(s: &Vec<usize>, v: &Vec<usize>) -> (r: Vec<usize>)
    requires forall|k: int| 0 <= k < v@.len() ==> #[trigger] v@[k] < s@.len(),
    ensures r@ == v@.map_values(|i: usize| s@[i as int]),
{
    let mut r: Vec<usize> = Vec::new();
    let mut k: usize = 0;
    while k < v.len()
        invariant
            k <= v@.len(),
            forall|j: int| 0 <= j < v@.len() ==> #[trigger] v@[j] < s@.len(),
            r@ == v@.take(k as int).map_values(|i: usize| s@[i as int]),
        decreases v@.len() - k,
    {
        r.push(s[v[k]]);
        k = k + 1;
        assert(r@ =~= v@.take(k as int).map_values(|i: usize| s@[i as int]));
    }
    assert(v@.take(v@.len() as int) =~= v@);
    r
}

/// Append `b` to `a`.
pub fn append_vec(a: &mut Vec<usize>, b: &Vec<usize>)
    ensures final(a)@ == old(a)@ + b@,
{
    let mut k: usize = 0;
    while k < b.len()
        invariant
            k <= b@.len(),
            a@ == old(a)@ + b@.take(k as int),
        decreases b@.len() - k,
    {
        a.push(b[k]);
        k = k + 1;
        assert(a@ =~= old(a)@ + b@.take(k as int));
    }
    assert(b@.take(b@.len() as int) =~= b@);
}

impl Graph {
    /// `derive_dtype` over the stored source dtypes.
    pub(crate) fn derive_dtype_exec(&self, op: &Op, src: &Vec<NodeId>) -> (d: DType)
        requires
            srcs_below(src@, self.nodes@.len() as int),
            src@.len() >= min_src(*op),
        ensures d == derive_dtype(*op, ins_of(self.nodes@, src@)),
    {
        match op {
            Op::Const { data, .. } => data.dtype(),
            Op::Input { dtype, .. } => *dtype,
            Op::Iota { dtype, .. } => *dtype,
            Op::Cast { to } | Op::Bitcast { to } => *to,
            Op::CmpLt | Op::CmpEq => DType::BOOL,
            Op::ArgReduce { .. } | Op::Argsort { .. } => DType::I64,
            Op::RandUniform { .. } => DType::F32,
            Op::Where => {
                assert(src@[1].0 < self.nodes@.len());
                self.nodes[src[1].0 as usize].dtype
            },
            Op::Complex | Op::Eigvals => {
                assert(src@[0].0 < self.nodes@.len());
                if self.nodes[src[0].0 as usize].dtype == DType::F64 { DType::C128 } else { DType::C64 }
            },
            Op::Real | Op::Imag => {
                assert(src@[0].0 < self.nodes@.len());
                self.nodes[src[0].0 as usize].dtype.to_real()
            },
            _ => {
                assert(src@[0].0 < self.nodes@.len());
                self.nodes[src[0].0 as usize].dtype
            },
        }
    }

    /// Whether `op(src)` may be pushed: every source exists and the derivation is defined.
    #[verifier::loop_isolation(false)]
    pub fn check_push(&self, op: &Op, src: &Vec<NodeId>) -> (b: bool)
        ensures b == self.can_push(*op, src@),
    {
        let n = self.nodes.len();
        let mut k: usize = 0;
        while k < src.len()
            invariant
                n == self.nodes@.len(),
                k <= src@.len(),
                srcs_below(src@.take(k as int), n as int),
            decreases src@.len() - k,
        {
            if src[k].0 as usize >= n {
                assert(!srcs_below(src@, n as int)) by { assert(src@[k as int].0 >= n); }
                return false;
            }
            k = k + 1;
            assert forall|j: int| 0 <= j < k implies (#[trigger] src@.take(k as int)[j]).0 < n by {
                if j < k - 1 {
                    assert(src@.take(k as int)[j] == src@.take(k - 1)[j]);
                }
            }
        }
        assert(src@.take(src@.len() as int) =~= src@);
        let ghost ins = ins_of(self.nodes@, src@);
        let need: usize = match op {
            Op::Const { .. } | Op::Input { .. } | Op::Iota { .. } | Op::RandUniform { .. } => 0,
            Op::Where | Op::DotGeneral { .. } | Op::Gather { .. } | Op::GatherAlong { .. } | Op::Solve
            | Op::QuantMatmul { .. } => 2,
            _ => 1,
        };
        if src.len() < need {
            return false;
        }
        let r0: usize = if need >= 1 {
            assert(src@[0].0 < n);
            self.nodes[src[0].0 as usize].shape.len()
        } else {
            0
        };
        assert(need >= 1 ==> r0 == ins[0].0.len());
        match op {
            Op::Sum { axis } | Op::Prod { axis } | Op::ReduceMax { axis } | Op::ArgReduce { axis, .. }
            | Op::Gather { axis } => *axis < r0,
            Op::Permute { perm } => {
                let mut i: usize = 0;
                while i < perm.len()
                    invariant
                        i <= perm@.len(),
                        r0 == ins[0].0.len(),
                        forall|j: int| 0 <= j < i ==> #[trigger] perm@[j] < r0,
                    decreases perm@.len() - i,
                {
                    if perm[i] >= r0 {
                        assert(!(perm@[i as int] < ins[0].0.len()));
                        return false;
                    }
                    i = i + 1;
                }
                true
            },
            Op::Slice { ranges } => {
                let mut i: usize = 0;
                while i < ranges.len()
                    invariant
                        i <= ranges@.len(),
                        forall|j: int| 0 <= j < i ==> (#[trigger] ranges@[j]).2 > 0 && ranges@[j].0 <= ranges@[j].1,
                    decreases ranges@.len() - i,
                {
                    let (s, e, st) = ranges[i];
                    if st == 0 || s > e {
                        assert(!((ranges@[i as int]).2 > 0 && ranges@[i as int].0 <= ranges@[i as int].1));
                        return false;
                    }
                    i = i + 1;
                }
                true
            },
            Op::Pad { pads } => {
                assert(src@[0].0 < n);
                let s0 = &self.nodes[src[0].0 as usize].shape;
                assert(s0@ == ins[0].0);
                let mut i: usize = 0;
                while i < pads.len() && i < s0.len()
                    invariant
                        i <= pads@.len(),
                        s0@ == ins[0].0,
                        forall|j: int| 0 <= j < i && j < s0@.len() ==> (#[trigger] pads@[j]).0 + s0@[j] + pads@[j].1 <= usize::MAX,
                    decreases pads@.len() - i,
                {
                    let (lo, hi) = pads[i];
                    if lo > usize::MAX - s0[i] || hi > usize::MAX - s0[i] - lo {
                        assert(!(pads@[i as int].0 + ins[0].0[i as int] + pads@[i as int].1 <= usize::MAX));
                        return false;
                    }
                    i = i + 1;
                }
                true
            },
            Op::DotGeneral { lhs_batch, rhs_batch, .. } => {
                assert(src@[1].0 < n);
                let r1 = self.nodes[src[1].0 as usize].shape.len();
                assert(r1 == ins[1].0.len());
                let mut i: usize = 0;
                while i < lhs_batch.len()
                    invariant
                        i <= lhs_batch@.len(),
                        r0 == ins[0].0.len(),
                        forall|j: int| 0 <= j < i ==> #[trigger] lhs_batch@[j] < r0,
                    decreases lhs_batch@.len() - i,
                {
                    if lhs_batch[i] >= r0 {
                        assert(!(lhs_batch@[i as int] < ins[0].0.len()));
                        return false;
                    }
                    i = i + 1;
                }
                let mut i: usize = 0;
                while i < rhs_batch.len()
                    invariant
                        i <= rhs_batch@.len(),
                        r1 == ins[1].0.len(),
                        forall|j: int| 0 <= j < i ==> #[trigger] rhs_batch@[j] < r1,
                    decreases rhs_batch@.len() - i,
                {
                    if rhs_batch[i] >= r1 {
                        assert(!(rhs_batch@[i as int] < ins[1].0.len()));
                        return false;
                    }
                    i = i + 1;
                }
                true
            },
            Op::Eigh => {
                if r0 < 1 {
                    return false;
                }
                let s0 = &self.nodes[src[0].0 as usize].shape;
                s0[r0 - 1] < usize::MAX
            },
            Op::Qr { .. } | Op::Det => r0 >= 2,
            Op::Eigvals => r0 >= 1,
            Op::QuantMatmul { .. } => {
                assert(src@[1].0 < n);
                r0 >= 1 && self.nodes[src[1].0 as usize].shape.len() >= 1
            },
            _ => true,
        }
    }

    /// `derive_shape` over the stored source shapes.
    #[verifier::loop_isolation(false)]
    pub(crate) fn derive_shape_exec(&self, op: &Op, src: &Vec<NodeId>) -> (s: Vec<usize>)
        requires
            self.can_push(*op, src@),
        ensures s@ == derive_shape(*op, ins_of(self.nodes@, src@)),
    {
        let ghost ins = ins_of(self.nodes@, src@);
        if src.len() >= 1 {
            assert(src@[0].0 < self.nodes@.len());
        }
        if src.len() >= 2 {
            assert(src@[1].0 < self.nodes@.len());
        }
        match op {
            Op::Const { shape, .. } | Op::Input { shape, .. } | Op::Iota { shape, .. } | Op::RandUniform { shape } =>
                crate::graph::op::copy_vec(shape),
            Op::Sum { axis } | Op::Prod { axis } | Op::ReduceMax { axis } | Op::ArgReduce { axis, .. } => {
                let mut s = crate::graph::op::copy_vec(&self.nodes[src[0].0 as usize].shape);
                s.remove(*axis);
                s
            },
            Op::Reshape { shape } | Op::Expand { shape } => crate::graph::op::copy_vec(shape),
            Op::Permute { perm } => gather_dims(&self.nodes[src[0].0 as usize].shape, perm),
            Op::Slice { ranges } => {
                let mut r: Vec<usize> = Vec::new();
                let mut k: usize = 0;
                while k < ranges.len()
                    invariant
                        k <= ranges@.len(),
                        forall|j: int| 0 <= j < ranges@.len() ==> (#[trigger] ranges@[j]).2 > 0 && ranges@[j].0 <= ranges@[j].1,
                        r@ == ranges@.take(k as int).map_values(
                            |r: (usize, usize, usize)| ceil_div(r.1 - r.0, r.2 as int) as usize,
                        ),
                    decreases ranges@.len() - k,
                {
                    let (s, e, st) = ranges[k];
                    let d = e - s;
                    proof { lemma_ceil_div(d as int, st as int); }
                    let q = if d % st == 0 { d / st } else { d / st + 1 };
                    r.push(q);
                    k = k + 1;
                    assert(r@ =~= ranges@.take(k as int).map_values(
                        |r: (usize, usize, usize)| ceil_div(r.1 - r.0, r.2 as int) as usize,
                    ));
                }
                assert(ranges@.take(ranges@.len() as int) =~= ranges@);
                r
            },
            Op::Pad { pads } => {
                let s0 = &self.nodes[src[0].0 as usize].shape;
                let mut r: Vec<usize> = Vec::new();
                let mut k: usize = 0;
                assert(forall|j: int| 0 <= j < pads@.len() && j < s0@.len() ==> (#[trigger] pads@[j]).0 + s0@[j] + pads@[j].1 <= usize::MAX);
                while k < pads.len() && k < s0.len()
                    invariant
                        k <= pads@.len(),
                        k <= s0@.len(),
                        s0@ == ins[0].0,
                        forall|j: int| 0 <= j < pads@.len() && j < s0@.len() ==> (#[trigger] pads@[j]).0 + s0@[j] + pads@[j].1 <= usize::MAX,
                        r@ == Seq::new(k as nat, |i: int| (pads@[i].0 + s0@[i] + pads@[i].1) as usize),
                    decreases pads@.len() - k,
                {
                    let (lo, hi) = pads[k];
                    assert(pads@[k as int].0 + s0@[k as int] + pads@[k as int].1 <= usize::MAX);
                    r.push(lo + s0[k] + hi);
                    k = k + 1;
                    assert(r@ =~= Seq::new(k as nat, |i: int| (pads@[i].0 + s0@[i] + pads@[i].1) as usize));
                }
                assert(r@ =~= derive_shape(*op, ins));
                r
            },
            Op::DotGeneral { lhs_contract, rhs_contract, lhs_batch, rhs_batch } => {
                let a = &self.nodes[src[0].0 as usize].shape;
                let b = &self.nodes[src[1].0 as usize].shape;
                let mut r = gather_dims(a, lhs_batch);
                let lf = free_axes(a.len(), lhs_batch, lhs_contract);
                let rf = free_axes(b.len(), rhs_batch, rhs_contract);
                proof {
                    lemma_free_upto_below(lhs_batch@, lhs_contract@, a@.len());
                    lemma_free_upto_below(rhs_batch@, rhs_contract@, b@.len());
                }
                let l2 = gather_dims(a, &lf);
                let r2 = gather_dims(b, &rf);
                append_vec(&mut r, &l2);
                append_vec(&mut r, &r2);
                r
            },
            Op::Gather { axis } => {
                let s0 = &self.nodes[src[0].0 as usize].shape;
                let s1 = &self.nodes[src[1].0 as usize].shape;
                let mut r: Vec<usize> = Vec::new();
                let mut k: usize = 0;
                assert(*axis < s0@.len());
                while k < *axis
                    invariant
                        k <= *axis,
                        *axis < s0@.len(),
                        r@ == s0@.take(k as int),
                    decreases *axis - k,
                {
                    r.push(s0[k]);
                    k = k + 1;
                    assert(r@ =~= s0@.take(k as int));
                }
                append_vec(&mut r, s1);
                let l0 = s0.len();
                assert(*axis < l0);
                let mut k: usize = *axis + 1;
                while k < s0.len()
                    invariant
                        *axis + 1 <= k <= s0@.len(),
                        r@ == s0@.take(*axis as int) + s1@ + s0@.subrange(*axis + 1, k as int),
                    decreases s0@.len() - k,
                {
                    r.push(s0[k]);
                    k = k + 1;
                    assert(r@ =~= s0@.take(*axis as int) + s1@ + s0@.subrange(*axis + 1, k as int));
                }
                assert(s0@.subrange(*axis + 1, s0@.len() as int) =~= s0@.skip(*axis + 1));
                r
            },
            Op::GatherAlong { .. } | Op::Solve => crate::graph::op::copy_vec(&self.nodes[src[1].0 as usize].shape),
            Op::Eigh => {
                let mut s = crate::graph::op::copy_vec(&self.nodes[src[0].0 as usize].shape);
                let l = s.len() - 1;
                let v = s[l] + 1;
                s.set(l, v);
                s
            },
            Op::Qr { r_factor } => {
                let mut s = crate::graph::op::copy_vec(&self.nodes[src[0].0 as usize].shape);
                let r = s.len();
                let k = if s[r - 2] <= s[r - 1] { s[r - 2] } else { s[r - 1] };
                if *r_factor {
                    s.set(r - 2, k);
                } else {
                    s.set(r - 1, k);
                }
                s
            },
            Op::Eigvals => {
                let mut s = crate::graph::op::copy_vec(&self.nodes[src[0].0 as usize].shape);
                let l = s.len() - 1;
                s.truncate(l);
                s
            },
            Op::Det => {
                let mut s = crate::graph::op::copy_vec(&self.nodes[src[0].0 as usize].shape);
                let l = s.len() - 2;
                s.truncate(l);
                s
            },
            Op::QuantMatmul { .. } => {
                let a = self.nodes[src[0].0 as usize].shape[0];
                let b = self.nodes[src[1].0 as usize].shape[0];
                let r = vec![a, b];
                assert(r@ =~= seq![a, b]);
                r
            },
            _ => crate::graph::op::copy_vec(&self.nodes[src[0].0 as usize].shape),
        }
    }
}

} // verus!
