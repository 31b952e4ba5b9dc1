//! Cumulative scans along an axis: the sum (a contraction with the prefix-ones matrix), the
//! product (log-magnitude sum plus sign parity), and the maximum and minimum (a 0/-inf
//! triangular mask and a max-reduction).

use vstd::prelude::*;
use crate::dtype::DType;
use crate::error::{Error, ErrorKind};
use crate::graph::{Graph, NodeId, Op};
use crate::graph::shape::{numel, ones, ones_vec, swap_dims, swap_perm, expand_ok, lemma_numel_insert_one};
use crate::graph::ops::base::scalar::{ok_id, F32_ONE, F32_TWO};
use crate::graph::ops::base::explog::{is_exp_of, lemma_exp_kept};
use crate::graph::ops::base::masks::{Grid, grid_storage, is_grid_const, holds_grid};

verus! {

/// -1e30 as f32 (clamps `ln 0` off `-inf`).
pub const F32_NEG_1E30: u32 = 0xf149_f2ca;

/// The `n x n` scan matrices fit in memory.
pub open spec fn scan_fits(s: Seq<usize>, axis: usize) -> bool {
    axis < s.len() ==> s[axis as int] * s[axis as int] * 4 <= usize::MAX && s[axis as int] <= i64::MAX
}

/// The tensor a running-maximum node `id` (see `is_cummax_of`) reads, before any move of axes.
pub open spec fn cummax_row(g: Graph, id: NodeId, axis: usize, r: nat) -> NodeId {
    let last = (r - 1) as usize;
    let rm = if axis == last { id } else { g.arg(id, 0) };
    g.arg(g.arg(g.arg(rm, 0), 0), 0)
}

/// The `x` of a running-maximum node `id` (see `is_cummax_of`).
pub open spec fn cummax_input(g: Graph, id: NodeId, axis: usize, r: nat) -> NodeId {
    let xt = g.arg(cummax_row(g, id, axis, r), 0);
    if axis == (r - 1) as usize { xt } else { g.arg(xt, 0) }
}

/// The `-inf`-above-the-diagonal mask constant of a running-maximum node `id`.
pub open spec fn cummax_mask(g: Graph, id: NodeId, axis: usize, r: nat) -> NodeId {
    let last = (r - 1) as usize;
    let rm = if axis == last { id } else { g.arg(id, 0) };
    let mnc = g.arg(g.arg(g.arg(rm, 0), 1), 0);
    if g.opn(mnc) is Cast { g.arg(mnc, 0) } else { mnc }
}

/// Node `id` of `g` is the running maximum of `x` along `axis` (`n` long) of a rank-`r`
/// tensor: each row of `x` (its axis moved last when `axis` is not last) broadcast and added
/// to the `n x n` mask that is `0` on and below the diagonal and `-inf` above it, maxed over
/// the new axis, and moved back.
pub open spec fn is_cummax_of(g: Graph, id: NodeId, x: NodeId, axis: usize, r: nat, n: usize) -> bool {
    let last = (r - 1) as usize;
    let rm = if axis == last { id } else { g.arg(id, 0) };
    let m = g.arg(rm, 0);
    let xr = cummax_row(g, id, axis, r);
    let xt = g.arg(xr, 0);
    let mb = g.arg(m, 1);
    let mnc = g.arg(mb, 0);
    let mn = cummax_mask(g, id, axis, r);
    &&& axis != last ==> g.srcs(id) == seq![rm] && (g.opn(id) matches Op::Permute { perm } && perm@ == swap_perm(r, axis as int, last as int))
    &&& g.node_is(rm, Op::ReduceMax { axis: (last + 1) as usize }, seq![m])
    &&& g.node_is(m, Op::Add, seq![g.arg(m, 0), mb])
    &&& g.opn(g.arg(m, 0)) is Expand && g.srcs(g.arg(m, 0)).len() == 1
    &&& g.opn(mb) is Expand && g.srcs(mb).len() == 1
    &&& g.opn(mnc) is Cast ==> g.srcs(mnc).len() == 1
    &&& g.opn(mn) matches Op::Const { data, .. } && data.spec_dtype() == DType::F32
        && holds_grid(data.spec_bytes(), Grid::NegInfAbove, n as int, n as int)
    &&& g.opn(xr) is Reshape && g.srcs(xr) == seq![xt]
    &&& (axis == last ==> xt == x)
    &&& (axis != last ==> g.srcs(xt) == seq![x] && (g.opn(xt) matches Op::Permute { perm } && perm@ == swap_perm(r, axis as int, last as int)))
}

/// A running-maximum node stays one as the graph grows.
pub proof fn lemma_cummax_kept(g0: Graph, g1: Graph, id: NodeId, x: NodeId, axis: usize, r: nat, n: usize)
    requires g0.wf(), g0.valid(id), r >= 1, is_cummax_of(g0, id, x, axis, r, n), g1.extends(g0),
    ensures is_cummax_of(g1, id, x, axis, r, n), cummax_input(g1, id, axis, r) == cummax_input(g0, id, axis, r),
{
    let last = (r - 1) as usize;
    let rm = if axis == last { id } else { g0.arg(id, 0) };
    let m = g0.arg(rm, 0);
    let xr = cummax_row(g0, id, axis, r);
    assert(g1.nodes@[id.0 as int] == g0.nodes@[id.0 as int]);
    if axis != last {
        g0.lemma_arg_kept(g1, id, 0);
    }
    g0.lemma_arg_kept(g1, rm, 0);
    g0.lemma_arg_kept(g1, m, 0);
    g0.lemma_arg_kept(g1, m, 1);
    g0.lemma_arg_valid(m, 0);
    g0.lemma_arg_kept(g1, g0.arg(m, 0), 0);
    g0.lemma_arg_valid(g0.arg(m, 0), 0);
    g0.lemma_arg_kept(g1, xr, 0);
    if axis != last {
        g0.lemma_arg_valid(xr, 0);
        g0.lemma_arg_kept(g1, g0.arg(xr, 0), 0);
    }
    let mb = g0.arg(m, 1);
    g0.lemma_arg_valid(m, 1);
    g0.lemma_arg_kept(g1, mb, 0);
    let mnc = g0.arg(mb, 0);
    g0.lemma_arg_valid(mb, 0);
    if g0.opn(mnc) is Cast {
        g0.lemma_arg_kept(g1, mnc, 0);
    }
}

/// Node `id` of `g` is the running sum of `x` (shape `s`) along `axis`: `x` contracted over
/// its last axis with the prefix-ones matrix (cast to the dtype), `axis` moved last before and
/// back after.
pub open spec fn is_cumsum_of(g: Graph, id: NodeId, x: NodeId, s: Seq<usize>, axis: usize) -> bool {
    let last = (s.len() - 1) as usize;
    let d = if axis == last { id } else { g.arg(id, 0) };
    let xt = g.arg(d, 0);
    let u = g.arg(d, 1);
    let c = if g.opn(u) is Cast { g.arg(u, 0) } else { u };
    &&& g.valid(id)
    &&& g.srcs(d).len() == 2
    &&& g.opn(d) matches Op::DotGeneral { lhs_contract, rhs_contract, lhs_batch, rhs_batch }
        && lhs_contract@ == seq![last] && rhs_contract@ == seq![0usize]
        && lhs_batch@.len() == 0 && rhs_batch@.len() == 0
    &&& (g.opn(u) is Cast ==> g.srcs(u).len() == 1)
    &&& (axis == last ==> xt == x)
    &&& (axis != last ==> g.srcs(id) == seq![d]
        && (g.opn(id) matches Op::Permute { perm } && perm@ == swap_perm(s.len(), axis as int, last as int))
        && g.srcs(xt) == seq![x]
        && (g.opn(xt) matches Op::Permute { perm } && perm@ == swap_perm(s.len(), axis as int, last as int)))
    &&& is_grid_const(g, c, Grid::PrefixOnes, s[axis as int], s[axis as int])
}

/// A running sum stays one as the graph grows.
pub proof fn lemma_cumsum_kept(g0: Graph, g1: Graph, id: NodeId, x: NodeId, s: Seq<usize>, axis: usize)
    requires g0.wf(), is_cumsum_of(g0, id, x, s, axis), g1.extends(g0),
    ensures is_cumsum_of(g1, id, x, s, axis),
{
    let last = (s.len() - 1) as usize;
    g0.lemma_node_kept(g1, id);
    let d = if axis == last { id } else { g0.arg(id, 0) };
    if axis != last {
        g0.lemma_arg_kept(g1, id, 0);
    }
    g0.lemma_arg_kept(g1, d, 0);
    g0.lemma_arg_kept(g1, d, 1);
    let u = g0.arg(d, 1);
    if g0.opn(u) is Cast {
        g0.lemma_arg_kept(g1, u, 0);
    }
}

impl Graph {
    /// Cumulative sum along `axis`: `out[.., i, ..] = sum_{j <= i} x[.., j, ..]`, a contraction
    /// with the upper-triangular ones matrix.
    #[verifier::spinoff_prover]
    #[verifier::rlimit(40)]
    pub fn cumsum(&mut self, x: NodeId, axis: usize) -> (r: Result<NodeId, Error>)
        requires old(self).wf(), old(self).room(5), old(self).valid(x), scan_fits(old(self).sh(x), axis),
        ensures
            final(self).wf(), final(self).grew(*old(self), 5),
            r is Ok <==> axis < old(self).sh(x).len() && old(self).dt(x).spec_is_arith(),
            r matches Ok(id) ==> final(self).valid(id) && final(self).sh(id) == old(self).sh(x)
                && final(self).dt(id) == old(self).dt(x),
            r is Err ==> *final(self) == *old(self),
            r matches Ok(id) ==> is_cumsum_of(*final(self), id, x, old(self).sh(x), axis),
    {
        let ghost s0 = self.sh(x);
        let sh = self.shape(x);
        let rank = sh.len();
        if axis >= rank {
            return Err(Error::new("cumsum", ErrorKind::AxisOutOfRange { axis, rank }));
        }
        let dt = self.dtype(x);
        if !dt.is_arith() {
            return Err(Error::new("cumsum", ErrorKind::DTypeClass(dt)));
        }
        let n = sh[axis];
        let u = self.const_storage(grid_storage(Grid::PrefixOnes, n, n), vec![n, n]);
        let u = if dt == DType::F32 { u } else { self.cast(u, dt) };
        let last = rank - 1;
        let xt = if axis == last { x } else { ok_id(self.transpose(x, axis, last)) };
        let ghost st = self.sh(xt);
        let lc: Vec<usize> = vec![last];
        let rc: Vec<usize> = vec![0];
        let lb: Vec<usize> = Vec::new();
        let rb: Vec<usize> = Vec::new();
        assert(lc@ =~= seq![last] && rc@ =~= seq![0usize] && lb@ =~= Seq::<usize>::empty() && rb@ =~= Seq::<usize>::empty());
        assert(self.sh(u) =~= seq![n, n]);
        proof { crate::graph::ops::base::fft::lemma_dft_shape(st, n); }
        let out = self.dot_general(xt, u, lc, rc, lb, rb)?;
        if axis == last {
            Ok(out)
        } else {
            let back = ok_id(self.transpose(out, axis, last));
            assert(swap_dims(swap_dims(s0, axis as int, last as int), axis as int, last as int) =~= s0);
            Ok(back)
        }
    }

    /// Cumulative product along `axis` of a float tensor: `exp(cumsum(ln|x|))` (the log
    /// clamped off `-inf`) times the sign `1 - 2 (cumsum(x < 0) mod 2)`.
    #[verifier::spinoff_prover]
    #[verifier::rlimit(60)]
    pub fn cumprod(&mut self, x: NodeId, axis: usize) -> (r: Result<NodeId, Error>)
        requires old(self).wf(), old(self).room(50), old(self).valid(x), scan_fits(old(self).sh(x), axis),
            old(self).dt(x).spec_is_float(),
        ensures
            final(self).wf(), final(self).grew(*old(self), 50),
            r is Ok <==> axis < old(self).sh(x).len(),
            r matches Ok(id) ==> final(self).valid(id) && final(self).sh(id) == old(self).sh(x)
                && final(self).dt(id) == old(self).dt(x),
            r matches Ok(id) ==> ({
                let g = *final(self);
                let sign = g.arg(id, 0);
                let mag = g.arg(id, 1);
                let cs = g.arg(g.arg(mag, 0), 0);
                &&& g.node_is(id, Op::Mul, seq![sign, mag])
                &&& is_exp_of(g, mag, cs)
                &&& g.node_is(sign, Op::Add, seq![g.arg(sign, 0), g.arg(sign, 1)])
                &&& g.opn(cs) is DotGeneral || g.opn(cs) is Permute
            }),
    {
        let rdt = self.dtype(x);
        let a = self.abs(x);
        let la = self.ln(a);
        let la = ok_id(self.clamp_min(la, F32_NEG_1E30));
        let cs = self.cumsum(la, axis)?;
        let mag = self.exp(cs);
        let ghost gm = *self;
        let zero = self.zeros_like(x);
        let neg = ok_id(self.cmp_lt(x, zero));
        let negf = self.cast(neg, rdt);
        let cnt = ok_id(self.cumsum(negf, axis));
        let two = self.scalar(cnt, F32_TWO);
        let parity = ok_id(self.rem(cnt, two));
        let twop = self.scalar(parity, F32_TWO);
        let tp = ok_id(self.mul(twop, parity));
        let one = self.scalar(tp, F32_ONE);
        let sign = ok_id(self.sub(one, tp));
        let res = self.mul(sign, mag);
        proof { lemma_exp_kept(gm, *self, mag, cs); }
        res
    }

    /// `out[.., i] = max_{j <= i} x[.., j]` along `axis`: broadcast to `[.., n, n]`, add the
    /// 0/-inf mask, reduce over the last axis.
    #[verifier::spinoff_prover]
    #[verifier::rlimit(60)]
    fn cumulative_max(&mut self, x: NodeId, axis: usize) -> (r: Result<NodeId, Error>)
        requires
            old(self).wf(), old(self).room(12), old(self).valid(x), old(self).sh(x).len() >= 1,
            scan_fits(old(self).sh(x), axis), numel(old(self).sh(x)) <= usize::MAX,
            axis < old(self).sh(x).len() ==> numel(old(self).sh(x)) * old(self).sh(x)[axis as int] <= usize::MAX,
        ensures
            final(self).wf(), final(self).grew(*old(self), 12),
            r is Ok <==> axis < old(self).sh(x).len() && old(self).dt(x).spec_is_numeric(),
            r matches Ok(id) ==> final(self).valid(id) && final(self).sh(id) == old(self).sh(x)
                && final(self).dt(id) == old(self).dt(x),
            r matches Ok(id) ==> is_cummax_of(*final(self), id, x, axis, old(self).sh(x).len(), old(self).sh(x)[axis as int]),
    {
        let ghost s0 = self.sh(x);
        let sh = self.shape(x);
        let last = sh.len() - 1;
        if axis > last {
            return Err(Error::new("transpose", ErrorKind::AxisOutOfRange { axis, rank: sh.len() }));
        }
        let xt = if axis == last { x } else { ok_id(self.transpose(x, axis, last)) };
        let tsh = self.shape(xt);
        let n = tsh[last];
        assert(n == s0[axis as int]);
        let mut b1 = self.shape(xt);
        b1.insert(last, 1);
        proof {
            lemma_numel_insert_one(tsh@, last as int);
            crate::graph::shape::lemma_numel_swap(s0, axis as int, last as int);
        }
        let xr = ok_id(self.reshape(xt, b1));
        let mut full = self.shape(xt);
        full.insert(last, n);
        let ghost fs = full@;
        let fl = full.len();
        proof { lemma_numel_insert_one(tsh@, last as int); }
        let xb = self.broadcast_to(xr, full);
        assert(xb is Ok) by {
            assert(crate::graph::shape::left_pad_ones(self.sh(xr), fs.len()) =~= self.sh(xr));
            assert(expand_ok(self.sh(xr), fs));
        }
        let xb = ok_id(xb);
        let mut msh = ones_vec(fl);
        msh.set(fl - 2, n);
        msh.set(fl - 1, n);
        let ghost ms = msh@;
        let mn = self.const_storage(grid_storage(Grid::NegInfAbove, n, n), msh);
        let dt = self.dtype(xt);
        let mnc = if dt == DType::F32 { mn } else { self.cast(mn, dt) };
        proof {
            crate::graph::shape::lemma_numel_ones((fl - 2) as nat);
            assert(ms =~= Seq::new((fl - 2) as nat, |i: int| 1usize) + seq![n] + seq![n]);
            crate::graph::shape::lemma_numel_concat(Seq::new((fl - 2) as nat, |i: int| 1usize) + seq![n], seq![n]);
            crate::graph::shape::lemma_numel_concat(Seq::new((fl - 2) as nat, |i: int| 1usize), seq![n]);
            crate::graph::shape::lemma_numel_single(n);
            assert(n * n <= usize::MAX) by (nonlinear_arith) requires n * n * 4 <= usize::MAX;
        }
        let mut full2 = self.shape(xt);
        full2.insert(last, n);
        let mb = self.broadcast_to(mnc, full2);
        assert(mb is Ok) by {
            assert(crate::graph::shape::left_pad_ones(ms, fs.len()) =~= ms);
            assert(expand_ok(ms, fs));
        }
        let mb = ok_id(mb);
        let masked = self.add(xb, mb)?;
        let r = self.reduce_max(masked, last + 1)?;
        assert(fs.remove(last + 1) =~= tsh@);
        if axis == last {
            Ok(r)
        } else {
            let back = ok_id(self.transpose(r, axis, last));
            assert(swap_dims(swap_dims(s0, axis as int, last as int), axis as int, last as int) =~= s0);
            Ok(back)
        }
    }

    /// Cumulative maximum along `axis` (numeric).
    pub fn cummax(&mut self, x: NodeId, axis: usize) -> (r: Result<NodeId, Error>)
        requires
            old(self).wf(), old(self).room(12), old(self).valid(x), old(self).sh(x).len() >= 1,
            scan_fits(old(self).sh(x), axis), numel(old(self).sh(x)) <= usize::MAX,
            axis < old(self).sh(x).len() ==> numel(old(self).sh(x)) * old(self).sh(x)[axis as int] <= usize::MAX,
        ensures
            final(self).wf(), final(self).grew(*old(self), 12),
            r is Ok <==> axis < old(self).sh(x).len() && old(self).dt(x).spec_is_numeric(),
            r matches Ok(id) ==> final(self).valid(id) && final(self).sh(id) == old(self).sh(x)
                && final(self).dt(id) == old(self).dt(x),
            r matches Ok(id) ==> is_cummax_of(*final(self), id, x, axis, old(self).sh(x).len(), old(self).sh(x)[axis as int]),
    {
        self.cumulative_max(x, axis)
    }

    /// Cumulative minimum along `axis`: `-cummax(-x)` (signed dtype).
    pub fn cummin(&mut self, x: NodeId, axis: usize) -> (r: Result<NodeId, Error>)
        requires
            old(self).wf(), old(self).room(14), old(self).valid(x), old(self).sh(x).len() >= 1,
            old(self).dt(x).spec_is_signed(),
            scan_fits(old(self).sh(x), axis), numel(old(self).sh(x)) <= usize::MAX,
            axis < old(self).sh(x).len() ==> numel(old(self).sh(x)) * old(self).sh(x)[axis as int] <= usize::MAX,
        ensures
            final(self).wf(), final(self).grew(*old(self), 14),
            r is Ok <==> axis < old(self).sh(x).len(),
            r matches Ok(id) ==> final(self).valid(id) && final(self).sh(id) == old(self).sh(x)
                && final(self).dt(id) == old(self).dt(x),
            r matches Ok(id) ==> final(self).node_is(id, Op::Neg, seq![final(self).arg(id, 0)])
                && is_cummax_of(*final(self), final(self).arg(id, 0),
                    cummax_input(*final(self), final(self).arg(id, 0), axis, old(self).sh(x).len()), axis, old(self).sh(x).len(), old(self).sh(x)[axis as int])
                && final(self).node_is(cummax_input(*final(self), final(self).arg(id, 0), axis, old(self).sh(x).len()), Op::Neg, seq![x]),
    {
        let nx = self.neg(x);
        let c = self.cumulative_max(nx, axis)?;
        let ghost g1 = *self;
        let res = self.neg(c);
        proof {
            lemma_cummax_kept(g1, *self, c, nx, axis, old(self).sh(x).len(), old(self).sh(x)[axis as int]);
        }
        Ok(res)
    }
}

} // verus!
