//! Reductions along an axis (keepdim = false) plus whole-tensor and norm variants.

use vstd::prelude::*;
use crate::dtype::DType;
use crate::error::{Error, ErrorKind};
use crate::graph::{ArgKind, Graph, NodeId, Op};
use crate::graph::infer::ins_of;
use crate::graph::shape::{numel, expand_ok, lemma_numel_insert_one};
use crate::graph::f32bits::{recip_count_bits, f32_positive_normal, nearest_recip};
use crate::graph::ops::base::elementwise::float_or_complex;
use crate::graph::ops::base::scalar::{ok_id, is_scalar_of, lemma_scalar_kept};

verus! {

/// Node `id` of `g` spreads `src` back over a reduced axis: an expand of a reshape of `src`.
pub open spec fn is_spread_of(g: Graph, id: NodeId, src: NodeId) -> bool {
    &&& g.valid(id) && g.opn(id) is Expand && g.srcs(id).len() == 1
    &&& g.opn(g.arg(id, 0)) is Reshape && g.srcs(g.arg(id, 0)) == seq![src]
}

/// A spread stays one as the graph grows.
pub proof fn lemma_spread_kept(g0: Graph, g1: Graph, id: NodeId, src: NodeId)
    requires g0.wf(), is_spread_of(g0, id, src), g1.extends(g0),
    ensures is_spread_of(g1, id, src),
{
    g0.lemma_arg_kept(g1, id, 0);
}

/// Node `id` of `g` broadcasts the f32 reciprocal of the count `n` (rounded to nearest).
pub open spec fn recip_scalar(g: Graph, id: NodeId, n: int) -> bool {
    exists|b: u32| #[trigger] is_scalar_of(g, id, b) && (n >= 1 ==> f32_positive_normal(b))
        && (1 <= n < 0x100_0000 ==> nearest_recip(b, n))
}

/// A reciprocal-count scalar stays one as the graph grows.
pub proof fn lemma_recip_scalar_kept(g0: Graph, g1: Graph, id: NodeId, n: int)
    requires g0.wf(), g0.valid(id), recip_scalar(g0, id, n), g1.extends(g0),
    ensures recip_scalar(g1, id, n),
{
    let b = choose|b: u32| #[trigger] is_scalar_of(g0, id, b) && (n >= 1 ==> f32_positive_normal(b))
        && (1 <= n < 0x100_0000 ==> nearest_recip(b, n));
    lemma_scalar_kept(g0, g1, id, b);
}

/// Node `id` of `g` is the mean of `x` over `axis` (`n` long): `sum(x) * (1/n)`.
pub open spec fn is_mean_of(g: Graph, id: NodeId, x: NodeId, axis: usize, n: int) -> bool {
    let s = g.arg(id, 0);
    &&& g.node_is(id, Op::Mul, seq![s, g.arg(id, 1)])
    &&& g.node_is(s, Op::Sum { axis }, seq![x])
    &&& recip_scalar(g, g.arg(id, 1), n)
}

/// A mean stays one as the graph grows.
pub proof fn lemma_mean_kept(g0: Graph, g1: Graph, id: NodeId, x: NodeId, axis: usize, n: int)
    requires g0.wf(), is_mean_of(g0, id, x, axis, n), g1.extends(g0),
    ensures is_mean_of(g1, id, x, axis, n),
{
    g0.lemma_arg_kept(g1, id, 0);
    g0.lemma_arg_kept(g1, id, 1);
    lemma_recip_scalar_kept(g0, g1, g0.arg(id, 1), n);
}

/// Node `id` of `g` is the variance of `x` over `axis` (`n` long) with Bessel `correction`:
/// `sum((x - mean)^2) * (1/(n - correction))`, the mean spread back over `axis`.
pub open spec fn is_var_of(g: Graph, id: NodeId, x: NodeId, axis: usize, n: int, correction: int) -> bool {
    let ss = g.arg(id, 0);
    let sq = g.arg(ss, 0);
    let c = g.arg(sq, 0);
    let mb = g.arg(g.arg(c, 1), 0);
    let m = g.arg(g.arg(mb, 0), 0);
    &&& g.node_is(id, Op::Mul, seq![ss, g.arg(id, 1)])
    &&& recip_scalar(g, g.arg(id, 1), n - correction)
    &&& g.node_is(ss, Op::Sum { axis }, seq![sq])
    &&& g.node_is(sq, Op::Mul, seq![c, c])
    &&& g.node_is(c, Op::Add, seq![x, g.arg(c, 1)])
    &&& g.node_is(g.arg(c, 1), Op::Neg, seq![mb])
    &&& is_spread_of(g, mb, m)
    &&& is_mean_of(g, m, x, axis, n)
}

/// A variance stays one as the graph grows.
pub proof fn lemma_var_kept(g0: Graph, g1: Graph, id: NodeId, x: NodeId, axis: usize, n: int, correction: int)
    requires g0.wf(), is_var_of(g0, id, x, axis, n, correction), g1.extends(g0),
    ensures is_var_of(g1, id, x, axis, n, correction),
{
    let ss = g0.arg(id, 0);
    let sq = g0.arg(ss, 0);
    let c = g0.arg(sq, 0);
    let mb = g0.arg(g0.arg(c, 1), 0);
    g0.lemma_arg_kept(g1, id, 0);
    g0.lemma_arg_kept(g1, id, 1);
    g0.lemma_arg_kept(g1, ss, 0);
    g0.lemma_arg_kept(g1, sq, 0);
    g0.lemma_arg_kept(g1, c, 1);
    g0.lemma_arg_kept(g1, g0.arg(c, 1), 0);
    lemma_recip_scalar_kept(g0, g1, g0.arg(id, 1), n - correction);
    lemma_spread_kept(g0, g1, mb, g0.arg(g0.arg(mb, 0), 0));
    g0.lemma_arg_kept(g1, mb, 0);
    g0.lemma_arg_valid(mb, 0);
    g0.lemma_arg_kept(g1, g0.arg(mb, 0), 0);
    lemma_mean_kept(g0, g1, g0.arg(g0.arg(mb, 0), 0), x, axis, n);
}

/// Node `id` of `g` reduces `x` over its first axis `k` times, by sums (or by products).
pub open spec fn reduced_front(g: Graph, id: NodeId, x: NodeId, k: nat, sum: bool) -> bool
    decreases k,
{
    if k == 0 {
        id == x
    } else {
        let p = g.arg(id, 0);
        &&& g.node_is(id, if sum { Op::Sum { axis: 0 } } else { Op::Prod { axis: 0 } }, seq![p])
        &&& reduced_front(g, p, x, (k - 1) as nat, sum)
    }
}

/// A chain of reductions stays one as the graph grows.
pub proof fn lemma_reduced_front_kept(g0: Graph, g1: Graph, id: NodeId, x: NodeId, k: nat, sum: bool)
    requires g0.wf(), reduced_front(g0, id, x, k, sum), g1.extends(g0),
    ensures reduced_front(g1, id, x, k, sum),
    decreases k,
{
    if k > 0 {
        g0.lemma_arg_kept(g1, id, 0);
        lemma_reduced_front_kept(g0, g1, g0.arg(id, 0), x, (k - 1) as nat, sum);
    }
}

/// Node `id` of `g` is `a` to the power `b`: `2^(b log2 a)`.
pub open spec fn is_pow_of(g: Graph, id: NodeId, a: NodeId, b: NodeId) -> bool {
    let m = g.arg(id, 0);
    &&& g.node_is(id, Op::Exp2, seq![m])
    &&& g.node_is(m, Op::Mul, seq![b, g.arg(m, 1)])
    &&& g.node_is(g.arg(m, 1), Op::Log2, seq![a])
}

/// Node `id` of `g` is the `p`-norm of `x` over `axis`: the sum of `|x|^p` over the axis, to
/// the power `1 / p` (taken between F32 unit constants and broadcast).
pub open spec fn is_norm_p_of(g: Graph, id: NodeId, x: NodeId, p: u32, axis: usize) -> bool {
    let m = g.arg(id, 0);
    let inv = g.arg(m, 0);
    let s = g.arg(g.arg(m, 1), 0);
    let ap = g.arg(s, 0);
    let pc = g.arg(g.arg(ap, 0), 0);
    let a = g.arg(g.arg(g.arg(ap, 0), 1), 0);
    let q = crate::graph::ops::base::scalar::spread_source(g, inv);
    &&& is_pow_of(g, id, s, inv)
    &&& g.node_is(s, Op::Sum { axis }, seq![ap])
    &&& is_pow_of(g, ap, a, pc) && is_scalar_of(g, pc, p)
    &&& g.node_is(a, Op::Max, seq![x, g.arg(a, 1)]) && g.node_is(g.arg(a, 1), Op::Neg, seq![x])
    &&& g.opn(inv) is Expand && g.srcs(inv).len() == 1
    &&& crate::graph::ops::base::signal::is_quot_of(g, q, g.arg(q, 0), g.arg(g.arg(q, 1), 0))
    &&& crate::graph::ops::base::scalar::is_f32_unit(g, g.arg(q, 0), crate::graph::ops::base::scalar::F32_ONE)
    &&& crate::graph::ops::base::scalar::is_f32_unit(g, g.arg(g.arg(q, 1), 0), p)
}

impl Graph {
    /// Push a reduction `op(a)` whose axis is in range.
    fn push_reduce(&mut self, op: Op, a: NodeId, axis: usize) -> (id: NodeId)
        requires
            old(self).wf(), old(self).room(1), old(self).valid(a),
            axis < old(self).sh(a).len(),
            op == (Op::Sum { axis }) || op == (Op::Prod { axis }) || op == (Op::ReduceMax { axis })
                || op == (Op::ArgReduce { axis, kind: ArgKind::Max }) || op == (Op::ArgReduce { axis, kind: ArgKind::Min }),
        ensures
            final(self).wf(),
            final(self).pushed(*old(self), id, op, seq![a]),
            final(self).sh(id) == old(self).sh(a).remove(axis as int),
            final(self).dt(id) == (if op is ArgReduce { DType::I64 } else { old(self).dt(a) }),
    {
        let v = vec![a];
        assert(v@ =~= seq![a]);
        assert(ins_of(self.nodes@, v@)[0] == (self.sh(a), self.dt(a)));
        self.push(op, v)
    }

    /// Sum over `axis` (numeric or complex).
    pub fn sum(&mut self, a: NodeId, axis: usize) -> (r: Result<NodeId, Error>)
        requires old(self).wf(), old(self).room(1), old(self).valid(a),
        ensures
            final(self).wf(),
            r is Ok <==> axis < old(self).sh(a).len() && old(self).dt(a).spec_is_arith(),
            r matches Ok(id) ==> final(self).pushed(*old(self), id, Op::Sum { axis }, seq![a])
                && final(self).sh(id) == old(self).sh(a).remove(axis as int) && final(self).dt(id) == old(self).dt(a),
            r is Err ==> *final(self) == *old(self),
    {
        self.reduce_check_arith("sum", a, axis)?;
        Ok(self.push_reduce(Op::Sum { axis }, a, axis))
    }

    /// Max over `axis` (numeric).
    pub fn reduce_max(&mut self, a: NodeId, axis: usize) -> (r: Result<NodeId, Error>)
        requires old(self).wf(), old(self).room(1), old(self).valid(a),
        ensures
            final(self).wf(),
            r is Ok <==> axis < old(self).sh(a).len() && old(self).dt(a).spec_is_numeric(),
            r matches Ok(id) ==> final(self).pushed(*old(self), id, Op::ReduceMax { axis }, seq![a])
                && final(self).sh(id) == old(self).sh(a).remove(axis as int) && final(self).dt(id) == old(self).dt(a),
            r is Err ==> *final(self) == *old(self),
    {
        self.reduce_check("reduce_max", a, axis)?;
        Ok(self.push_reduce(Op::ReduceMax { axis }, a, axis))
    }

    /// Product over `axis` (numeric or complex).
    pub fn prod(&mut self, a: NodeId, axis: usize) -> (r: Result<NodeId, Error>)
        requires old(self).wf(), old(self).room(1), old(self).valid(a),
        ensures
            final(self).wf(),
            r is Ok <==> axis < old(self).sh(a).len() && old(self).dt(a).spec_is_arith(),
            r matches Ok(id) ==> final(self).pushed(*old(self), id, Op::Prod { axis }, seq![a])
                && final(self).sh(id) == old(self).sh(a).remove(axis as int) && final(self).dt(id) == old(self).dt(a),
            r is Err ==> *final(self) == *old(self),
    {
        self.reduce_check_arith("prod", a, axis)?;
        Ok(self.push_reduce(Op::Prod { axis }, a, axis))
    }

    /// I64 index of the maximum along `axis` (numeric).
    pub fn argmax(&mut self, a: NodeId, axis: usize) -> (r: Result<NodeId, Error>)
        requires old(self).wf(), old(self).room(1), old(self).valid(a),
        ensures
            final(self).wf(),
            r is Ok <==> axis < old(self).sh(a).len() && old(self).dt(a).spec_is_numeric(),
            r matches Ok(id) ==> final(self).pushed(*old(self), id, Op::ArgReduce { axis, kind: ArgKind::Max }, seq![a])
                && final(self).sh(id) == old(self).sh(a).remove(axis as int) && final(self).dt(id) == DType::I64,
            r is Err ==> *final(self) == *old(self),
    {
        self.reduce_check("argmax", a, axis)?;
        Ok(self.push_reduce(Op::ArgReduce { axis, kind: ArgKind::Max }, a, axis))
    }

    /// I64 index of the minimum along `axis` (numeric).
    pub fn argmin(&mut self, a: NodeId, axis: usize) -> (r: Result<NodeId, Error>)
        requires old(self).wf(), old(self).room(1), old(self).valid(a),
        ensures
            final(self).wf(),
            r is Ok <==> axis < old(self).sh(a).len() && old(self).dt(a).spec_is_numeric(),
            r matches Ok(id) ==> final(self).pushed(*old(self), id, Op::ArgReduce { axis, kind: ArgKind::Min }, seq![a])
                && final(self).sh(id) == old(self).sh(a).remove(axis as int) && final(self).dt(id) == DType::I64,
            r is Err ==> *final(self) == *old(self),
    {
        self.reduce_check("argmin", a, axis)?;
        Ok(self.push_reduce(Op::ArgReduce { axis, kind: ArgKind::Min }, a, axis))
    }

    /// Re-insert a reduced axis as size 1 and broadcast back to `full`.
    pub(crate) fn broadcast_back(&mut self, reduced: NodeId, full: &Vec<usize>, axis: usize) -> (r: Result<NodeId, Error>)
        requires
            old(self).wf(), old(self).room(2), old(self).valid(reduced),
            axis <= old(self).sh(reduced).len(),
            numel(old(self).sh(reduced)) <= usize::MAX,
        ensures
            final(self).wf(), final(self).grew(*old(self), 2),
            r is Ok <==> expand_ok(old(self).sh(reduced).insert(axis as int, 1), full@),
            r matches Ok(id) ==> final(self).valid(id) && final(self).sh(id) == full@
                && final(self).dt(id) == old(self).dt(reduced),
            r matches Ok(id) ==> is_spread_of(*final(self), id, reduced),
    {
        let mut keep = self.shape(reduced);
        keep.insert(axis, 1);
        proof { lemma_numel_insert_one(self.sh(reduced), axis as int); }
        let r = ok_id(self.reshape(reduced, keep));
        self.expand(r, crate::graph::op::copy_vec(full))
    }

    /// Mean over `axis`: `sum(x) * (1/N)`.
    pub fn mean(&mut self, x: NodeId, axis: usize) -> (r: Result<NodeId, Error>)
        requires old(self).wf(), old(self).room(5), old(self).valid(x), axis < old(self).sh(x).len(),
        ensures
            final(self).wf(), final(self).grew(*old(self), 5),
            r is Ok <==> old(self).dt(x).spec_is_arith(),
            r matches Ok(id) ==> final(self).valid(id) && final(self).sh(id) == old(self).sh(x).remove(axis as int)
                && final(self).dt(id) == old(self).dt(x),
            r is Err ==> *final(self) == *old(self),
            r matches Ok(id) ==> is_mean_of(*final(self), id, x, axis, old(self).sh(x)[axis as int] as int),
    {
        let n = self.nodes[x.0 as usize].shape[axis];
        let s = self.sum(x, axis)?;
        let bits = recip_count_bits(n as u64);
        let inv = self.scalar(s, bits);
        let ghost g1 = *self;
        let res = self.mul(s, inv);
        proof {
            lemma_scalar_kept(g1, *self, inv, bits);
            assert(is_scalar_of(*self, inv, bits));
            if res is Ok {
                let id = res->Ok_0;
                assert(self.arg(id, 1) == inv);
                assert(recip_scalar(*self, inv, n as int));
            }
        }
        res
    }

    /// Min over `axis`: `-reduce_max(-x)`.
    pub fn reduce_min(&mut self, x: NodeId, axis: usize) -> (r: Result<NodeId, Error>)
        requires
            old(self).wf(), old(self).room(3), old(self).valid(x),
            old(self).dt(x).spec_is_signed() || old(self).dt(x).spec_is_complex(),
        ensures
            final(self).wf(), final(self).grew(*old(self), 3),
            r is Ok <==> axis < old(self).sh(x).len() && old(self).dt(x).spec_is_signed(),
            r matches Ok(id) ==> final(self).valid(id) && final(self).sh(id) == old(self).sh(x).remove(axis as int)
                && final(self).dt(id) == old(self).dt(x),
            r matches Ok(id) ==> final(self).node_is(id, Op::Neg, seq![final(self).arg(id, 0)])
                && final(self).node_is(final(self).arg(id, 0), Op::ReduceMax { axis }, seq![final(self).arg(final(self).arg(id, 0), 0)])
                && final(self).node_is(final(self).arg(final(self).arg(id, 0), 0), Op::Neg, seq![x]),
    {
        let nx = self.neg(x);
        let m = self.reduce_max(nx, axis)?;
        Ok(self.neg(m))
    }

    /// Population variance over `axis` (correction 0).
    pub fn var(&mut self, x: NodeId, axis: usize) -> (r: Result<NodeId, Error>)
        requires
            old(self).wf(), old(self).room(16), old(self).valid(x), axis < old(self).sh(x).len(),
            numel(old(self).sh(x).remove(axis as int)) <= usize::MAX,
            0 < old(self).sh(x)[axis as int] && old(self).dt(x).spec_is_arith()
                ==> old(self).dt(x).spec_is_signed() || old(self).dt(x).spec_is_complex(),
        ensures
            final(self).wf(), final(self).grew(*old(self), 16),
            r is Ok <==> 0 < old(self).sh(x)[axis as int] && old(self).dt(x).spec_is_arith(),
            r matches Ok(id) ==> final(self).valid(id) && final(self).sh(id) == old(self).sh(x).remove(axis as int)
                && final(self).dt(id) == old(self).dt(x),
            r is Err ==> *final(self) == *old(self),
            r matches Ok(id) ==> is_var_of(*final(self), id, x, axis, old(self).sh(x)[axis as int] as int, 0),
    {
        self.var_correction(x, axis, 0)
    }

    /// Variance over `axis` with Bessel `correction`: `sum((x - mean)^2) / (N - correction)`.
    pub fn var_correction(&mut self, x: NodeId, axis: usize, correction: usize) -> (r: Result<NodeId, Error>)
        requires
            old(self).wf(), old(self).room(16), old(self).valid(x), axis < old(self).sh(x).len(),
            numel(old(self).sh(x).remove(axis as int)) <= usize::MAX,
            correction < old(self).sh(x)[axis as int] && old(self).dt(x).spec_is_arith()
                ==> old(self).dt(x).spec_is_signed() || old(self).dt(x).spec_is_complex(),
        ensures
            final(self).wf(), final(self).grew(*old(self), 16),
            r is Ok <==> correction < old(self).sh(x)[axis as int] && old(self).dt(x).spec_is_arith(),
            r matches Ok(id) ==> final(self).valid(id) && final(self).sh(id) == old(self).sh(x).remove(axis as int)
                && final(self).dt(id) == old(self).dt(x),
            r is Err ==> *final(self) == *old(self),
            r matches Ok(id) ==> is_var_of(*final(self), id, x, axis, old(self).sh(x)[axis as int] as int, correction as int),
    {
        let full = self.shape(x);
        let n = full[axis];
        if correction >= n {
            return Err(Error::new("var", ErrorKind::Invalid));
        }
        let dt = self.dtype(x);
        if !dt.is_arith() {
            return Err(Error::new("var", ErrorKind::DTypeClass(dt)));
        }
        let m = ok_id(self.mean(x, axis));
        let ghost gm = *self;
        proof {
            assert(full@.remove(axis as int).insert(axis as int, 1) =~= full@.update(axis as int, 1));
        }
        let mb = ok_id(self.broadcast_back(m, &full, axis));
        let ghost gb = *self;
        let c = ok_id(self.sub(x, mb));
        let sq = ok_id(self.mul(c, c));
        let ss = ok_id(self.sum(sq, axis));
        let bits = recip_count_bits((n - correction) as u64);
        let inv = self.scalar(ss, bits);
        let ghost g1 = *self;
        let res = self.mul(ss, inv);
        proof {
            lemma_scalar_kept(g1, *self, inv, bits);
            assert(is_scalar_of(*self, inv, bits));
            lemma_mean_kept(gm, *self, m, x, axis, n as int);
            lemma_spread_kept(gb, *self, mb, m);
            if res is Ok {
                let id = res->Ok_0;
                assert(self.arg(id, 1) == inv && self.arg(id, 0) == ss && self.arg(ss, 0) == sq && self.arg(sq, 0) == c);
                assert(self.arg(self.arg(c, 1), 0) == mb);
                assert(recip_scalar(*self, inv, n - correction));
            }
        }
        res
    }

    /// Standard deviation over `axis` (correction 0).
    pub fn std_dev(&mut self, x: NodeId, axis: usize) -> (r: Result<NodeId, Error>)
        requires
            old(self).wf(), old(self).room(17), old(self).valid(x), axis < old(self).sh(x).len(),
            numel(old(self).sh(x).remove(axis as int)) <= usize::MAX,
            old(self).dt(x).spec_is_arith() ==> float_or_complex(old(self).dt(x)),
        ensures
            final(self).wf(), final(self).grew(*old(self), 17),
            r is Ok <==> 0 < old(self).sh(x)[axis as int] && old(self).dt(x).spec_is_arith(),
            r matches Ok(id) ==> final(self).valid(id) && final(self).sh(id) == old(self).sh(x).remove(axis as int)
                && final(self).dt(id) == old(self).dt(x),
            r is Err ==> *final(self) == *old(self),
            r matches Ok(id) ==> final(self).node_is(id, Op::Sqrt, seq![final(self).arg(id, 0)])
                && is_var_of(*final(self), final(self).arg(id, 0), x, axis, old(self).sh(x)[axis as int] as int, 0),
    {
        let v = self.var(x, axis)?;
        let ghost g1 = *self;
        let res = self.sqrt(v);
        proof { lemma_var_kept(g1, *self, v, x, axis, g1.sh(x)[axis as int] as int, 0); }
        Ok(res)
    }

    /// Standard deviation over `axis` with Bessel `correction`.
    pub fn std_correction(&mut self, x: NodeId, axis: usize, correction: usize) -> (r: Result<NodeId, Error>)
        requires
            old(self).wf(), old(self).room(17), old(self).valid(x), axis < old(self).sh(x).len(),
            numel(old(self).sh(x).remove(axis as int)) <= usize::MAX,
            correction < old(self).sh(x)[axis as int] && old(self).dt(x).spec_is_arith() ==> float_or_complex(old(self).dt(x)),
        ensures
            final(self).wf(), final(self).grew(*old(self), 17),
            r is Ok <==> correction < old(self).sh(x)[axis as int] && old(self).dt(x).spec_is_arith(),
            r matches Ok(id) ==> final(self).valid(id) && final(self).sh(id) == old(self).sh(x).remove(axis as int)
                && final(self).dt(id) == old(self).dt(x),
            r is Err ==> *final(self) == *old(self),
            r matches Ok(id) ==> final(self).node_is(id, Op::Sqrt, seq![final(self).arg(id, 0)]),
            r matches Ok(id) ==> is_var_of(*final(self), final(self).arg(id, 0), x, axis, old(self).sh(x)[axis as int] as int, correction as int),
    {
        let v = self.var_correction(x, axis, correction)?;
        let ghost g1 = *self;
        let res = self.sqrt(v);
        proof { lemma_var_kept(g1, *self, v, x, axis, g1.sh(x)[axis as int] as int, correction as int); }
        Ok(res)
    }

    /// L1 norm over `axis`: `sum(|x|)` (signed).
    pub fn l1_norm(&mut self, x: NodeId, axis: usize) -> (r: Result<NodeId, Error>)
        requires old(self).wf(), old(self).room(3), old(self).valid(x), old(self).dt(x).spec_is_signed(),
        ensures
            final(self).wf(), final(self).grew(*old(self), 3),
            r is Ok <==> axis < old(self).sh(x).len(),
            r matches Ok(id) ==> final(self).valid(id) && final(self).sh(id) == old(self).sh(x).remove(axis as int)
                && final(self).dt(id) == old(self).dt(x),
            r matches Ok(id) ==> ({
                let g = *final(self);
                let a = g.arg(id, 0);
                &&& g.node_is(id, Op::Sum { axis }, seq![a])
                &&& g.node_is(a, Op::Max, seq![x, g.arg(a, 1)]) && g.node_is(g.arg(a, 1), Op::Neg, seq![x])
            }),
    {
        let a = self.abs(x);
        self.sum(a, axis)
    }

    /// L2 norm over `axis`: `sqrt(sum(x^2))`.
    pub fn l2_norm(&mut self, x: NodeId, axis: usize) -> (r: Result<NodeId, Error>)
        requires
            old(self).wf(), old(self).room(3), old(self).valid(x),
            axis < old(self).sh(x).len() && old(self).dt(x).spec_is_arith() ==> float_or_complex(old(self).dt(x)),
        ensures
            final(self).wf(), final(self).grew(*old(self), 3),
            r is Ok <==> axis < old(self).sh(x).len() && old(self).dt(x).spec_is_arith(),
            r matches Ok(id) ==> final(self).valid(id) && final(self).sh(id) == old(self).sh(x).remove(axis as int)
                && final(self).dt(id) == old(self).dt(x),
            r matches Ok(id) ==> ({
                let g = *final(self);
                let s = g.arg(id, 0);
                &&& g.node_is(id, Op::Sqrt, seq![s])
                &&& g.node_is(s, Op::Sum { axis }, seq![g.arg(s, 0)])
                &&& g.node_is(g.arg(s, 0), Op::Mul, seq![x, x])
            }),
    {
        let sq = self.mul(x, x)?;
        let s = self.sum(sq, axis)?;
        Ok(self.sqrt(s))
    }

    /// `ln(sum(x))` over `axis`.
    pub fn logsum(&mut self, x: NodeId, axis: usize) -> (r: Result<NodeId, Error>)
        requires
            old(self).wf(), old(self).room(6), old(self).valid(x),
            axis < old(self).sh(x).len() && old(self).dt(x).spec_is_arith() ==> float_or_complex(old(self).dt(x)),
        ensures
            final(self).wf(), final(self).grew(*old(self), 6),
            r is Ok <==> axis < old(self).sh(x).len() && old(self).dt(x).spec_is_arith(),
            r matches Ok(id) ==> final(self).valid(id) && final(self).sh(id) == old(self).sh(x).remove(axis as int)
                && final(self).dt(id) == old(self).dt(x),
            r is Err ==> *final(self) == *old(self),
            r matches Ok(id) ==> crate::graph::ops::base::explog::is_ln_of(*final(self), id, final(self).arg(final(self).arg(id, 0), 0))
                && final(self).node_is(final(self).arg(final(self).arg(id, 0), 0), Op::Sum { axis }, seq![x]),
    {
        let s = self.sum(x, axis)?;
        Ok(self.ln(s))
    }

    /// Stable log-sum-exp over `axis`: `m + ln(sum(exp(x - m)))`.
    pub fn logsumexp(&mut self, x: NodeId, axis: usize) -> (r: Result<NodeId, Error>)
        requires
            old(self).wf(), old(self).room(17), old(self).valid(x),
            axis < old(self).sh(x).len() ==> numel(old(self).sh(x).remove(axis as int)) <= usize::MAX,
            axis < old(self).sh(x).len() && old(self).dt(x).spec_is_numeric() ==> old(self).dt(x).spec_is_float(),
        ensures
            final(self).wf(), final(self).grew(*old(self), 17),
            r is Ok <==> axis < old(self).sh(x).len() && old(self).dt(x).spec_is_numeric(),
            r matches Ok(id) ==> final(self).valid(id) && final(self).sh(id) == old(self).sh(x).remove(axis as int)
                && final(self).dt(id) == old(self).dt(x),
            r matches Ok(id) ==> ({
                let g = *final(self);
                let l = g.arg(id, 0);
                let m = g.arg(id, 1);
                let s = g.arg(g.arg(l, 0), 0);
                let e = g.arg(s, 0);
                let shifted = g.arg(g.arg(e, 0), 0);
                let mb = g.arg(g.arg(shifted, 1), 0);
                &&& g.node_is(id, Op::Add, seq![l, m])
                &&& g.node_is(m, Op::ReduceMax { axis }, seq![x])
                &&& crate::graph::ops::base::explog::is_ln_of(g, l, s)
                &&& g.node_is(s, Op::Sum { axis }, seq![e])
                &&& crate::graph::ops::base::explog::is_exp_of(g, e, shifted)
                &&& g.node_is(shifted, Op::Add, seq![x, g.arg(shifted, 1)])
                &&& g.node_is(g.arg(shifted, 1), Op::Neg, seq![mb])
                &&& is_spread_of(g, mb, m)
            }),
    {
        let full = self.shape(x);
        let m = self.reduce_max(x, axis)?;
        proof {
            assert(full@.remove(axis as int).insert(axis as int, 1) =~= full@.update(axis as int, 1));
        }
        let mb = ok_id(self.broadcast_back(m, &full, axis));
        let ghost g1 = *self;
        let shifted = ok_id(self.sub(x, mb));
        let e = self.exp(shifted);
        let ghost g2 = *self;
        let s = ok_id(self.sum(e, axis));
        let l = self.ln(s);
        let ghost g3 = *self;
        let res = self.add(l, m);
        proof {
            lemma_spread_kept(g1, *self, mb, m);
            crate::graph::ops::base::explog::lemma_exp_kept(g2, *self, e, shifted);
            crate::graph::ops::base::explog::lemma_ln_kept(g3, *self, l, s);
        }
        res
    }

    /// Whether any element along `axis` is nonzero (BOOL).
    pub fn any(&mut self, x: NodeId, axis: usize) -> (r: Result<NodeId, Error>)
        requires old(self).wf(), old(self).room(13), old(self).valid(x),
        ensures
            final(self).wf(), final(self).grew(*old(self), 13),
            r is Ok <==> axis < old(self).sh(x).len() && !old(self).dt(x).spec_is_complex(),
            r matches Ok(id) ==> final(self).valid(id) && final(self).sh(id) == old(self).sh(x).remove(axis as int)
                && final(self).dt(id) == DType::BOOL,
            r matches Ok(id) ==> ({
                let g = *final(self);
                let m = g.arg(id, 1);
                let u = g.arg(m, 0);
                let nz = g.arg(u, 0);
                let eq = g.arg(nz, 0);
                &&& g.node_is(id, Op::CmpLt, seq![g.arg(id, 0), m])
                &&& is_scalar_of(g, g.arg(id, 0), crate::graph::ops::base::scalar::F32_HALF)
                &&& g.node_is(m, Op::ReduceMax { axis }, seq![u])
                &&& g.opn(u) == (Op::Cast { to: DType::F32 }) && g.srcs(u) == seq![nz]
                &&& crate::graph::ops::base::compare::is_not_of(g, nz, eq)
                &&& g.node_is(eq, Op::CmpEq, seq![x, g.arg(eq, 1)])
                &&& is_scalar_of(g, g.arg(eq, 1), crate::graph::ops::base::scalar::F32_ZERO)
            }),
    {
        let z = self.zeros_like(x);
        let ghost g1 = *self;
        let nz = self.ne(x, z)?;
        let ghost g2 = *self;
        let u = self.cast(nz, DType::F32);
        let m = self.reduce_max(u, axis)?;
        let half = self.scalar(m, crate::graph::ops::base::scalar::F32_HALF);
        let ghost g3 = *self;
        let res = self.gt(m, half);
        proof {
            lemma_scalar_kept(g1, *self, z, crate::graph::ops::base::scalar::F32_ZERO);
            crate::graph::ops::base::compare::lemma_not_kept(g2, *self, nz, g2.arg(nz, 0));
            g2.lemma_arg_kept(*self, nz, 0);
            lemma_scalar_kept(g3, *self, half, crate::graph::ops::base::scalar::F32_HALF);
        }
        res
    }

    /// Whether all elements along `axis` are nonzero (BOOL).
    pub fn all(&mut self, x: NodeId, axis: usize) -> (r: Result<NodeId, Error>)
        requires old(self).wf(), old(self).room(15), old(self).valid(x),
        ensures
            final(self).wf(), final(self).grew(*old(self), 15),
            r is Ok <==> axis < old(self).sh(x).len() && !old(self).dt(x).spec_is_complex(),
            r matches Ok(id) ==> final(self).valid(id) && final(self).sh(id) == old(self).sh(x).remove(axis as int)
                && final(self).dt(id) == DType::BOOL,
            r matches Ok(id) ==> ({
                let g = *final(self);
                let m = g.arg(id, 1);
                let u = g.arg(g.arg(g.arg(m, 0), 0), 0);
                let nz = g.arg(u, 0);
                let eq = g.arg(nz, 0);
                &&& g.node_is(id, Op::CmpLt, seq![g.arg(id, 0), m])
                &&& is_scalar_of(g, g.arg(id, 0), crate::graph::ops::base::scalar::F32_HALF)
                &&& g.node_is(m, Op::Neg, seq![g.arg(m, 0)])
                    && g.node_is(g.arg(m, 0), Op::ReduceMax { axis }, seq![g.arg(g.arg(m, 0), 0)])
                    && g.node_is(g.arg(g.arg(m, 0), 0), Op::Neg, seq![u])
                &&& g.opn(u) == (Op::Cast { to: DType::F32 }) && g.srcs(u) == seq![nz]
                &&& crate::graph::ops::base::compare::is_not_of(g, nz, eq)
                &&& g.node_is(eq, Op::CmpEq, seq![x, g.arg(eq, 1)])
                &&& is_scalar_of(g, g.arg(eq, 1), crate::graph::ops::base::scalar::F32_ZERO)
            }),
    {
        let z = self.zeros_like(x);
        let ghost g1 = *self;
        let nz = self.ne(x, z)?;
        let ghost g2 = *self;
        let u = self.cast(nz, DType::F32);
        let m = self.reduce_min(u, axis)?;
        let half = self.scalar(m, crate::graph::ops::base::scalar::F32_HALF);
        let ghost g3 = *self;
        let res = self.gt(m, half);
        proof {
            lemma_scalar_kept(g1, *self, z, crate::graph::ops::base::scalar::F32_ZERO);
            crate::graph::ops::base::compare::lemma_not_kept(g2, *self, nz, g2.arg(nz, 0));
            g2.lemma_arg_kept(*self, nz, 0);
            lemma_scalar_kept(g3, *self, half, crate::graph::ops::base::scalar::F32_HALF);
        }
        res
    }

    /// Sum over all axes -> scalar.
    pub fn sum_all(&mut self, x: NodeId) -> (r: Result<NodeId, Error>)
        requires old(self).wf(), old(self).room(old(self).sh(x).len()), old(self).valid(x),
        ensures
            final(self).wf(), final(self).grew(*old(self), old(self).sh(x).len()),
            r is Ok <==> old(self).sh(x).len() == 0 || old(self).dt(x).spec_is_arith(),
            r matches Ok(id) ==> final(self).valid(id) && final(self).sh(id) == Seq::<usize>::empty()
                && final(self).dt(id) == old(self).dt(x),
            r matches Ok(id) ==> reduced_front(*final(self), id, x, old(self).sh(x).len() as nat, true),
    {
        let r = self.rank(x);
        let ghost g0 = *self;
        let mut y = x;
        let mut k: usize = 0;
        while k < r
            invariant
                self.wf(), g0.wf(),
                k <= r, r == g0.sh(x).len(), g0.room(r as nat),
                self.extends(g0), self.nodes@.len() == g0.nodes@.len() + k,
                self.valid(y), self.sh(y) == g0.sh(x).skip(k as int), self.dt(y) == g0.dt(x),
                g0.valid(x), g0 == *old(self),
                k > 0 ==> g0.dt(x).spec_is_arith(),
                reduced_front(*self, y, x, k as nat, true),
            decreases r - k,
        {
            let ghost before = self.sh(y);
            let ghost gk = *self;
            let ghost y0 = y;
            y = self.sum(y, 0)?;
            proof { lemma_reduced_front_kept(gk, *self, y0, x, k as nat, true); }
            k = k + 1;
            assert(before.remove(0) =~= g0.sh(x).skip(k as int));
        }
        assert(g0.sh(x).skip(r as int) =~= Seq::<usize>::empty());
        Ok(y)
    }

    /// Mean over all elements -> scalar.
    pub fn mean_all(&mut self, x: NodeId) -> (r: Result<NodeId, Error>)
        requires
            old(self).wf(), old(self).room(old(self).sh(x).len() + 4), old(self).valid(x),
            numel(old(self).sh(x)) <= usize::MAX,
        ensures
            final(self).wf(), final(self).grew(*old(self), old(self).sh(x).len() + 4),
            r is Ok <==> old(self).dt(x).spec_is_arith(),
            r matches Ok(id) ==> final(self).valid(id) && final(self).sh(id) == Seq::<usize>::empty()
                && final(self).dt(id) == old(self).dt(x),
            r matches Ok(id) ==> final(self).node_is(id, Op::Mul, seq![final(self).arg(id, 0), final(self).arg(id, 1)])
                && reduced_front(*final(self), final(self).arg(id, 0), x, old(self).sh(x).len() as nat, true)
                && (numel(old(self).sh(x)) <= usize::MAX ==> recip_scalar(*final(self), final(self).arg(id, 1), numel(old(self).sh(x)))),
    {
        let total = match crate::graph::shape::numel_checked(&self.nodes[x.0 as usize].shape) {
            Some(t) => t,
            None => 0,
        };
        let s = self.sum_all(x)?;
        let ghost gs = *self;
        let bits = recip_count_bits(total as u64);
        let inv = self.scalar(s, bits);
        let ghost g1 = *self;
        let res = self.mul(s, inv);
        proof {
            lemma_reduced_front_kept(gs, *self, s, x, gs.sh(x).len() as nat, true);
            lemma_scalar_kept(g1, *self, inv, bits);
            assert(is_scalar_of(*self, inv, bits));
            if res is Ok {
                assert(self.arg(res->Ok_0, 1) == inv);
                if numel(old(self).sh(x)) <= usize::MAX {
                    assert(total == numel(old(self).sh(x)));
                    assert(recip_scalar(*self, inv, total as int));
                }
            }
        }
        res
    }

    /// Product over all axes -> scalar.
    pub fn prod_all(&mut self, x: NodeId) -> (r: Result<NodeId, Error>)
        requires old(self).wf(), old(self).room(old(self).sh(x).len()), old(self).valid(x),
        ensures
            final(self).wf(), final(self).grew(*old(self), old(self).sh(x).len()),
            r is Ok <==> old(self).sh(x).len() == 0 || old(self).dt(x).spec_is_arith(),
            r matches Ok(id) ==> final(self).valid(id) && final(self).sh(id) == Seq::<usize>::empty()
                && final(self).dt(id) == old(self).dt(x),
            r matches Ok(id) ==> reduced_front(*final(self), id, x, old(self).sh(x).len() as nat, false),
    {
        let r = self.rank(x);
        let ghost g0 = *self;
        let mut y = x;
        let mut k: usize = 0;
        while k < r
            invariant
                self.wf(), g0.wf(),
                k <= r, r == g0.sh(x).len(), g0.room(r as nat),
                self.extends(g0), self.nodes@.len() == g0.nodes@.len() + k,
                self.valid(y), self.sh(y) == g0.sh(x).skip(k as int), self.dt(y) == g0.dt(x),
                g0.valid(x), g0 == *old(self),
                k > 0 ==> g0.dt(x).spec_is_arith(),
                reduced_front(*self, y, x, k as nat, false),
            decreases r - k,
        {
            let ghost before = self.sh(y);
            let ghost gk = *self;
            let ghost y0 = y;
            y = self.prod(y, 0)?;
            proof { lemma_reduced_front_kept(gk, *self, y0, x, k as nat, false); }
            k = k + 1;
            assert(before.remove(0) =~= g0.sh(x).skip(k as int));
        }
        assert(g0.sh(x).skip(r as int) =~= Seq::<usize>::empty());
        Ok(y)
    }
    /// p-norm over `axis`, `(sum |x|^p)^(1/p)`, with `p` an f32 bit pattern and `1/p` rounded
    /// in f32 (float).
    #[verifier::spinoff_prover]
    #[verifier::rlimit(30)]
    pub fn norm_p(&mut self, x: NodeId, p: u32, axis: usize) -> (r: Result<NodeId, Error>)
        requires old(self).wf(), old(self).room(18), old(self).valid(x), old(self).dt(x).spec_is_float(),
        ensures
            final(self).wf(), final(self).grew(*old(self), 18),
            r is Ok <==> axis < old(self).sh(x).len(),
            r matches Ok(id) ==> final(self).valid(id) && final(self).sh(id) == old(self).sh(x).remove(axis as int)
                && final(self).dt(id) == old(self).dt(x),
            r matches Ok(id) ==> is_norm_p_of(*final(self), id, x, p, axis),
    {
        let a = self.abs(x);
        let ghost g1 = *self;
        let pc = self.scalar(a, p);
        let ghost g2 = *self;
        let ap = ok_id(self.pow(a, pc));
        let ghost g3 = *self;
        let s = self.sum(ap, axis)?;
        let ghost g4 = *self;
        let one_u = self.f32_unit(s, crate::graph::ops::base::scalar::F32_ONE);
        let ghost g5 = *self;
        let p_u = self.f32_unit(s, p);
        let ghost g6 = *self;
        let inv_u = ok_id(self.div(one_u, p_u));
        let ghost g7 = *self;
        let inv = self.spread_like(inv_u, s);
        let ghost g8 = *self;
        let r = self.pow(s, inv);
        proof {
            if r is Ok {
                reveal(crate::graph::ops::base::scalar::is_f32_unit);
                g1.lemma_node_kept(*self, a);
                g1.lemma_arg_kept(*self, a, 1);
                lemma_scalar_kept(g2, *self, pc, p);
                g3.lemma_node_kept(*self, ap);
                g3.lemma_arg_kept(*self, ap, 0);
                g3.lemma_arg_valid(ap, 0);
                g3.lemma_arg_kept(*self, g3.arg(ap, 0), 1);
                g4.lemma_node_kept(*self, s);
                g5.lemma_node_kept(*self, one_u);
                g6.lemma_node_kept(*self, p_u);
                g7.lemma_node_kept(*self, inv_u);
                g7.lemma_arg_kept(*self, inv_u, 1);
                g8.lemma_node_kept(*self, inv);
                g8.lemma_arg_kept(*self, inv, 0);
                assert(crate::graph::ops::base::scalar::spread_source(*self, inv) == inv_u);
            }
        }
        r
    }
}

} // verus!
