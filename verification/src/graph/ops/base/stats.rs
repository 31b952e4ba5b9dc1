//! Order and second-moment statistics: median and quantile (through a sort), mode,
//! covariance and correlation.

use vstd::prelude::*;
use crate::dtype::DType;
use crate::error::{Error, ErrorKind};
use crate::graph::{Graph, NodeId, Op};
use crate::graph::f32bits::recip_count_bits;
use crate::graph::shape::{numel, expand_ok, left_pad_ones, lemma_numel_update_le, lemma_numel_insert_one};
use crate::graph::ops::base::elementwise::float_or_complex;
use crate::graph::ops::base::scalar::{ok_id, F32_HALF, is_scalar_of, lemma_scalar_kept};
use crate::graph::ops::base::join::{is_piece, is_unsqueeze_of};
use crate::graph::op::ArgKind;
use crate::graph::shape::swap_perm;
use crate::graph::ops::base::reduce::{is_mean_of, lemma_mean_kept, is_spread_of, lemma_spread_kept, recip_scalar, lemma_recip_scalar_kept};
use crate::graph::ops::base::triangular::is_diagonal_of;
use crate::graph::ops::base::signal::{is_diff_of, is_quot_of};
use crate::graph::ops::base::signal::axis_ranges;
use crate::graph::ops::base::indexing::along_ok;

verus! {

/// Node `id` of `g` sorts `x` ascending along `axis`: a gather of `x` by its argsort.
pub open spec fn is_sorted_of(g: Graph, id: NodeId, x: NodeId, axis: usize) -> bool {
    &&& g.node_is(id, Op::GatherAlong { axis }, seq![x, g.arg(id, 1)])
    &&& g.node_is(g.arg(id, 1), Op::Argsort { axis, descending: false }, seq![x])
}

/// Node `id` of `g` is index `k` along `axis` of `x` (shape `s`) with that axis dropped: a
/// reshape of the one-wide slice there.
pub open spec fn is_pick_of(g: Graph, id: NodeId, x: NodeId, s: Seq<usize>, axis: int, k: int) -> bool {
    &&& g.valid(id) && g.opn(id) is Reshape && g.srcs(id).len() == 1
    &&& is_piece(g, g.arg(id, 0), x, s, axis, k, k + 1)
}

/// Node `id` of `g` is the median of `x` (shape `s`) over `axis`: the middle element of the
/// sorted axis, or half the sum of the two middle ones when the length is even.
pub open spec fn is_median_of(g: Graph, id: NodeId, x: NodeId, s: Seq<usize>, axis: usize) -> bool {
    let n = s[axis as int] as int;
    if n % 2 == 1 {
        let srt = g.arg(g.arg(id, 0), 0);
        is_pick_of(g, id, srt, s, axis as int, n / 2) && is_sorted_of(g, srt, x, axis)
    } else {
        let sum = g.arg(id, 0);
        let a = g.arg(sum, 0);
        let b = g.arg(sum, 1);
        let srt = g.arg(g.arg(a, 0), 0);
        &&& g.node_is(id, Op::Mul, seq![sum, g.arg(id, 1)])
        &&& is_scalar_of(g, g.arg(id, 1), F32_HALF)
        &&& g.node_is(sum, Op::Add, seq![a, b])
        &&& is_pick_of(g, a, srt, s, axis as int, n / 2 - 1)
        &&& is_pick_of(g, b, srt, s, axis as int, n / 2)
        &&& is_sorted_of(g, srt, x, axis)
    }
}

/// Node `id` of `g` is the quantile of `x` (shape `s`) at sorted position `lo` over `axis`:
/// the sorted value there, or with weights `(w_lo, w_hi)` the weighted sum of it and the
/// next sorted value (the last one at the end).
pub open spec fn is_quantile_of(g: Graph, id: NodeId, x: NodeId, s: Seq<usize>, axis: usize, lo: int, lerp: Option<(u32, u32)>) -> bool {
    match lerp {
        None => {
            let srt = g.arg(g.arg(id, 0), 0);
            is_pick_of(g, id, srt, s, axis as int, lo) && is_sorted_of(g, srt, x, axis)
        },
        Some((w_lo, w_hi)) => {
            let n = s[axis as int] as int;
            let hi = if lo + 1 < n - 1 { lo + 1 } else { n - 1 };
            let ta = g.arg(id, 0);
            let tb = g.arg(id, 1);
            let vlo = g.arg(ta, 0);
            let vhi = g.arg(tb, 0);
            let srt = g.arg(g.arg(vlo, 0), 0);
            &&& g.node_is(id, Op::Add, seq![ta, tb])
            &&& g.node_is(ta, Op::Mul, seq![vlo, g.arg(ta, 1)]) && is_scalar_of(g, g.arg(ta, 1), w_lo)
            &&& g.node_is(tb, Op::Mul, seq![vhi, g.arg(tb, 1)]) && is_scalar_of(g, g.arg(tb, 1), w_hi)
            &&& is_pick_of(g, vlo, srt, s, axis as int, lo)
            &&& is_pick_of(g, vhi, srt, s, axis as int, hi)
            &&& is_sorted_of(g, srt, x, axis)
        },
    }
}

/// Node `id` of `g` is the mode of `x` (shape `s`) over `axis`: the sorted values are
/// compared pairwise (one copy given a size-1 axis at `axis`, the other at `axis + 1`, both
/// broadcast), the matches counted over `axis + 1`, and the sorted value at the first
/// largest count taken.
pub open spec fn is_mode_of(g: Graph, id: NodeId, x: NodeId, s: Seq<usize>, axis: usize) -> bool {
    let m = g.arg(id, 0);
    let srt = g.arg(m, 0);
    let idxu = g.arg(m, 1);
    let idx = g.arg(idxu, 0);
    let count = g.arg(idx, 0);
    let eqf = g.arg(count, 0);
    let eq = g.arg(eqf, 0);
    let sib = g.arg(eq, 0);
    let sjb = g.arg(eq, 1);
    &&& g.opn(id) is Reshape && g.srcs(id) == seq![m]
    &&& g.node_is(m, Op::GatherAlong { axis }, seq![srt, idxu])
    &&& is_sorted_of(g, srt, x, axis)
    &&& is_unsqueeze_of(g, idxu, idx, s.remove(axis as int), axis as int)
    &&& g.node_is(idx, Op::ArgReduce { axis, kind: ArgKind::Max }, seq![count])
    &&& g.node_is(count, Op::Sum { axis: (axis + 1) as usize }, seq![eqf])
    &&& g.node_is(eqf, Op::Cast { to: DType::F32 }, seq![eq]) && g.node_is(eq, Op::CmpEq, seq![sib, sjb])
    &&& g.opn(sib) is Expand && g.srcs(sib).len() == 1 && is_unsqueeze_of(g, g.arg(sib, 0), srt, s, axis as int)
    &&& g.opn(sjb) is Expand && g.srcs(sjb).len() == 1 && is_unsqueeze_of(g, g.arg(sjb, 0), srt, s, axis + 1)
}

/// Node `id` of `g` is the covariance matrix of the rows of `x` (with `obs` columns): the rows
/// centred by their mean, contracted with their transpose, times `1 / max(obs - 1, 1)`.
pub open spec fn is_cov_of(g: Graph, id: NodeId, x: NodeId, obs: int) -> bool {
    let prod = g.arg(id, 0);
    let xc = g.arg(prod, 0);
    let xct = g.arg(prod, 1);
    let mb = g.arg(g.arg(xc, 1), 0);
    let m = g.arg(g.arg(mb, 0), 0);
    &&& g.node_is(id, Op::Mul, seq![prod, g.arg(id, 1)])
    &&& recip_scalar(g, g.arg(id, 1), if obs > 2 { obs - 1 } else { 1 })
    &&& g.srcs(prod) == seq![xc, xct] && g.opn(prod) is DotGeneral
    &&& g.srcs(xct) == seq![xc] && (g.opn(xct) matches Op::Permute { perm } && perm@ == swap_perm(2, 0, 1))
    &&& is_diff_of(g, xc, x, mb)
    &&& is_spread_of(g, mb, m)
    &&& is_mean_of(g, m, x, 1, obs)
}

/// A covariance stays one as the graph grows.
pub proof fn lemma_cov_kept(g0: Graph, g1: Graph, id: NodeId, x: NodeId, obs: int)
    requires g0.wf(), is_cov_of(g0, id, x, obs), g1.extends(g0),
    ensures is_cov_of(g1, id, x, obs),
{
    let prod = g0.arg(id, 0);
    let xc = g0.arg(prod, 0);
    let xct = g0.arg(prod, 1);
    let ng = g0.arg(xc, 1);
    let mb = g0.arg(ng, 0);
    let m = g0.arg(g0.arg(mb, 0), 0);
    g0.lemma_arg_kept(g1, id, 0);
    g0.lemma_arg_kept(g1, id, 1);
    lemma_recip_scalar_kept(g0, g1, g0.arg(id, 1), if obs > 2 { obs - 1 } else { 1 });
    g0.lemma_arg_valid(id, 0);
    g0.lemma_arg_kept(g1, prod, 0);
    g0.lemma_arg_kept(g1, prod, 1);
    g0.lemma_arg_kept(g1, xct, 0);
    g0.lemma_arg_kept(g1, xc, 1);
    g0.lemma_arg_kept(g1, ng, 0);
    lemma_spread_kept(g0, g1, mb, m);
    lemma_mean_kept(g0, g1, m, x, 1, obs);
}

/// Node `id` of `g` is the correlation matrix of the rows of `x` (with `obs` columns): the
/// covariance divided by the outer product of the square roots of its diagonal (`f` rows).
pub open spec fn is_corrcoef_of(g: Graph, id: NodeId, x: NodeId, f: usize, obs: int) -> bool {
    let c = g.arg(id, 0);
    let denom = g.arg(g.arg(id, 1), 0);
    let colb = g.arg(denom, 0);
    let rowb = g.arg(denom, 1);
    let col = g.arg(colb, 0);
    let row = g.arg(rowb, 0);
    let sq = g.arg(col, 0);
    &&& is_quot_of(g, id, c, denom) && is_cov_of(g, c, x, obs)
    &&& g.node_is(denom, Op::Mul, seq![colb, rowb])
    &&& g.opn(colb) is Expand && g.srcs(colb) == seq![col]
    &&& g.opn(rowb) is Expand && g.srcs(rowb) == seq![row]
    &&& g.srcs(col) == seq![sq] && (g.opn(col) matches Op::Reshape { shape } && shape@ == seq![f, 1usize])
    &&& g.srcs(row) == seq![sq] && (g.opn(row) matches Op::Reshape { shape } && shape@ == seq![1usize, f])
    &&& g.node_is(sq, Op::Sqrt, seq![g.arg(sq, 0)])
    &&& is_diagonal_of(g, g.arg(sq, 0), c, f, f)
}

/// An ascending sort stays one as the graph grows.
pub proof fn lemma_sorted_kept(g0: Graph, g1: Graph, id: NodeId, x: NodeId, axis: usize)
    requires g0.wf(), is_sorted_of(g0, id, x, axis), g1.extends(g0),
    ensures is_sorted_of(g1, id, x, axis),
{
    g0.lemma_arg_kept(g1, id, 1);
}

/// A pick stays one as the graph grows.
pub proof fn lemma_pick_kept(g0: Graph, g1: Graph, id: NodeId, x: NodeId, s: Seq<usize>, axis: int, k: int)
    requires g0.wf(), is_pick_of(g0, id, x, s, axis, k), g1.extends(g0),
    ensures is_pick_of(g1, id, x, s, axis, k),
{
    g0.lemma_arg_kept(g1, id, 0);
}

impl Graph {
    /// Index `k` along `axis`, the axis dropped.
    pub(crate) fn pick(&mut self, x: NodeId, axis: usize, k: usize) -> (r: Result<NodeId, Error>)
        requires
            old(self).wf(), old(self).room(2), old(self).valid(x), axis < old(self).sh(x).len(),
            numel(old(self).sh(x)) <= usize::MAX, k < usize::MAX,
        ensures
            final(self).wf(), final(self).grew(*old(self), 2),
            r is Ok <==> k < old(self).sh(x)[axis as int],
            r matches Ok(id) ==> final(self).valid(id) && final(self).sh(id) == old(self).sh(x).remove(axis as int)
                && final(self).dt(id) == old(self).dt(x),
            r matches Ok(id) ==> is_pick_of(*final(self), id, x, old(self).sh(x), axis as int, k as int),
    {
        let sh = self.shape(x);
        let ghost s = sh@;
        let ranges = axis_ranges(&sh, axis, k, k + 1);
        let sl = self.slice(x, ranges);
        proof {
            if k < s[axis as int] {
                assert forall|d: int| 0 <= d < ranges@.len() implies (#[trigger] ranges@[d]).0 <= ranges@[d].1 <= s[d] by {}
            } else {
                assert(!(ranges@[axis as int].0 <= ranges@[axis as int].1 <= s[axis as int]));
            }
        }
        let sl = sl?;
        proof {
            assert(self.sh(sl) =~= s.update(axis as int, 1));
            lemma_numel_update_le(s, axis as int, 1);
        }
        let ghost g1 = *self;
        let res = ok_id(self.squeeze(sl, axis));
        assert(self.sh(res) =~= s.remove(axis as int));
        assert(self.nodes@[sl.0 as int] == g1.nodes@[sl.0 as int]);
        Ok(res)
    }

    /// Median over `axis`: the middle order statistic, the mean of the two middle ones for
    /// an even length (numeric).
    #[verifier::spinoff_prover]
    #[verifier::rlimit(30)]
    pub fn median(&mut self, x: NodeId, axis: usize) -> (r: Result<NodeId, Error>)
        requires
            old(self).wf(), old(self).room(12), old(self).valid(x), axis < old(self).sh(x).len(),
            numel(old(self).sh(x)) <= usize::MAX,
            old(self).dt(x).spec_is_numeric() ==> old(self).sh(x)[axis as int] >= 1,
        ensures
            final(self).wf(), final(self).grew(*old(self), 12),
            r is Ok <==> old(self).dt(x).spec_is_numeric(),
            r matches Ok(id) ==> final(self).valid(id) && final(self).sh(id) == old(self).sh(x).remove(axis as int)
                && final(self).dt(id) == old(self).dt(x),
            r matches Ok(id) ==> is_median_of(*final(self), id, x, old(self).sh(x), axis),
    {
        let n = self.nodes[x.0 as usize].shape[axis];
        let s = self.sort(x, axis, false)?;
        let ghost g1 = *self;
        if n % 2 == 1 {
            let r = self.pick(s, axis, n / 2);
            proof {
                if r is Ok {
                    lemma_sorted_kept(g1, *self, s, x, axis);
                }
            }
            r
        } else {
            let a = ok_id(self.pick(s, axis, n / 2 - 1));
            let ghost g2 = *self;
            let b = ok_id(self.pick(s, axis, n / 2));
            let ghost g3 = *self;
            let sum = ok_id(self.add(a, b));
            let ghost g4 = *self;
            let h = self.scalar(sum, F32_HALF);
            let ghost g5 = *self;
            let r = self.mul(sum, h);
            proof {
                if r is Ok {
                    lemma_sorted_kept(g1, *self, s, x, axis);
                    lemma_pick_kept(g2, *self, a, s, old(self).sh(x), axis as int, (n / 2 - 1) as int);
                    lemma_pick_kept(g3, *self, b, s, old(self).sh(x), axis as int, (n / 2) as int);
                    assert(self.nodes@[sum.0 as int] == g4.nodes@[sum.0 as int]);
                    lemma_scalar_kept(g5, *self, h, F32_HALF);
                }
            }
            r
        }
    }

    /// The quantile at order-statistic position `lo + frac` over `axis` (numeric): the sorted
    /// value at `lo`, or, with `lerp = Some((1 - frac, frac))` as f32 bit patterns, the linear
    /// interpolation `(1 - frac) v[lo] + frac v[min(lo + 1, n - 1)]`.
    #[verifier::spinoff_prover]
    #[verifier::rlimit(30)]
    pub fn quantile_at(&mut self, x: NodeId, axis: usize, lo: usize, lerp: Option<(u32, u32)>) -> (r: Result<NodeId, Error>)
        requires
            old(self).wf(), old(self).room(15), old(self).valid(x), axis < old(self).sh(x).len(),
            numel(old(self).sh(x)) <= usize::MAX, lo < usize::MAX - 1,
        ensures
            final(self).wf(), final(self).grew(*old(self), 15),
            r is Ok <==> old(self).dt(x).spec_is_numeric() && lo < old(self).sh(x)[axis as int],
            r matches Ok(id) ==> final(self).valid(id) && final(self).sh(id) == old(self).sh(x).remove(axis as int)
                && final(self).dt(id) == old(self).dt(x),
            r matches Ok(id) ==> is_quantile_of(*final(self), id, x, old(self).sh(x), axis, lo as int, lerp),
    {
        let n = self.nodes[x.0 as usize].shape[axis];
        let s = self.sort(x, axis, false)?;
        let ghost g1 = *self;
        let vlo = self.pick(s, axis, lo)?;
        let ghost g2 = *self;
        match lerp {
            None => {
                proof { lemma_sorted_kept(g1, *self, s, x, axis); }
                Ok(vlo)
            },
            Some((w_lo, w_hi)) => {
                let hi = if lo + 1 < n - 1 { lo + 1 } else { n - 1 };
                let vhi = ok_id(self.pick(s, axis, hi));
                let ghost g3 = *self;
                let a = self.scalar(vlo, w_lo);
                let ghost g4 = *self;
                let ta = ok_id(self.mul(vlo, a));
                let ghost g5 = *self;
                let b = self.scalar(vhi, w_hi);
                let ghost g6 = *self;
                let tb = ok_id(self.mul(vhi, b));
                let ghost g7 = *self;
                let r = self.add(ta, tb);
                proof {
                    if r is Ok {
                        lemma_sorted_kept(g1, *self, s, x, axis);
                        lemma_pick_kept(g2, *self, vlo, s, old(self).sh(x), axis as int, lo as int);
                        lemma_pick_kept(g3, *self, vhi, s, old(self).sh(x), axis as int, hi as int);
                        lemma_scalar_kept(g4, *self, a, w_lo);
                        lemma_scalar_kept(g6, *self, b, w_hi);
                        g5.lemma_node_kept(*self, ta);
                        g7.lemma_node_kept(*self, tb);
                    }
                }
                r
            },
        }
    }

    /// Elementwise equality as F32 ones and zeros.
    fn eq_f32(&mut self, a: NodeId, b: NodeId) -> (r: Result<NodeId, Error>)
        requires old(self).wf(), old(self).room(2), old(self).valid(a), old(self).valid(b),
        ensures
            final(self).wf(), final(self).grew(*old(self), 2),
            r is Ok <==> !old(self).dt(a).spec_is_complex() && old(self).same_sd(a, b),
            r matches Ok(id) ==> final(self).valid(id) && final(self).sh(id) == old(self).sh(a)
                && final(self).dt(id) == DType::F32,
            r matches Ok(id) ==> final(self).node_is(id, Op::Cast { to: DType::F32 }, seq![final(self).arg(id, 0)])
                && final(self).node_is(final(self).arg(id, 0), Op::CmpEq, seq![a, b]),
    {
        let eq = self.cmp_eq(a, b)?;
        let ghost g1 = *self;
        let res = self.cast(eq, DType::F32);
        proof { g1.lemma_node_kept(*self, eq); }
        Ok(res)
    }

    /// Mode over `axis`: the most frequent value, the smallest on ties, by an `n x n`
    /// pairwise equality count over the sorted axis (numeric).
    #[verifier::spinoff_prover]
    #[verifier::rlimit(60)]
    pub fn mode(&mut self, x: NodeId, axis: usize) -> (r: Result<NodeId, Error>)
        requires
            old(self).wf(), old(self).room(15), old(self).valid(x),
            numel(old(self).sh(x)) <= usize::MAX,
            axis < old(self).sh(x).len() ==> numel(old(self).sh(x).remove(axis as int)) <= usize::MAX,
        ensures
            final(self).wf(), final(self).grew(*old(self), 15),
            r is Ok <==> axis < old(self).sh(x).len() && old(self).dt(x).spec_is_numeric(),
            r matches Ok(id) ==> final(self).valid(id) && final(self).sh(id) == old(self).sh(x).remove(axis as int)
                && final(self).dt(id) == old(self).dt(x),
            r matches Ok(id) ==> is_mode_of(*final(self), id, x, old(self).sh(x), axis),
    {
        let s = self.sort(x, axis, false)?;
        let ghost g1 = *self;
        let ghost sx = self.sh(s);
        proof {
            lemma_numel_insert_one(sx, axis as int);
            lemma_numel_insert_one(sx, axis + 1);
        }
        let si = ok_id(self.unsqueeze(s, axis));
        let ghost g2 = *self;
        let rank = self.rank(s);
        let sj = ok_id(self.unsqueeze(s, axis + 1));
        let ghost g3 = *self;
        let mut full = self.shape(si);
        let n = self.nodes[s.0 as usize].shape[axis];
        full.set(axis, n);
        let ghost fs = full@;
        proof {
            assert(fs =~= sx.insert(axis as int, n));
            assert(fs =~= sx.insert(axis + 1, n));
            let a = self.sh(si);
            let b = self.sh(sj);
            assert(left_pad_ones(a, fs.len()) =~= a);
            assert(left_pad_ones(b, fs.len()) =~= b);
            assert forall|i: int| 0 <= i < a.len() implies #[trigger] a[i] == fs[i] || a[i] == 1 by {}
            assert forall|i: int| 0 <= i < b.len() implies #[trigger] b[i] == fs[i] || b[i] == 1 by {}
        }
        let sib = ok_id(self.broadcast_to(si, crate::graph::op::copy_vec(&full)));
        let ghost g4 = *self;
        let sjb = ok_id(self.broadcast_to(sj, full));
        let ghost g5 = *self;
        let eqf = ok_id(self.eq_f32(sib, sjb));
        let ghost g6 = *self;
        let count = ok_id(self.sum(eqf, axis + 1));
        let ghost g7 = *self;
        assert(self.sh(count) =~= sx);
        let idx = ok_id(self.argmax(count, axis));
        let ghost g8 = *self;
        proof { lemma_numel_insert_one(sx.remove(axis as int), axis as int); }
        let idxu = ok_id(self.unsqueeze(idx, axis));
        let ghost g9 = *self;
        let ghost su = sx.remove(axis as int).insert(axis as int, 1);
        proof {
            assert(su =~= sx.update(axis as int, 1));
            assert(along_ok(sx, su, axis));
        }
        let m = ok_id(self.take_along_dim(s, idxu, axis));
        let ghost g10 = *self;
        assert(self.sh(m) =~= su);
        assert(numel(su) <= usize::MAX);
        let res = ok_id(self.squeeze(m, axis));
        assert(self.sh(res) =~= sx.remove(axis as int));
        proof {
            lemma_sorted_kept(g1, *self, s, x, axis);
            g2.lemma_node_kept(*self, si);
            g3.lemma_node_kept(*self, sj);
            g4.lemma_node_kept(*self, sib);
            g5.lemma_node_kept(*self, sjb);
            g6.lemma_node_kept(*self, eqf);
            g6.lemma_arg_kept(*self, eqf, 0);
            g7.lemma_node_kept(*self, count);
            g8.lemma_node_kept(*self, idx);
            g9.lemma_node_kept(*self, idxu);
            g10.lemma_node_kept(*self, m);
        }
        Ok(res)
    }

    /// Covariance matrix of `x = [features, observations]`: `[features, features]`, rows
    /// centered, divided by `max(observations, 2) - 1`.
    #[verifier::spinoff_prover]
    #[verifier::rlimit(40)]
    pub fn cov(&mut self, x: NodeId) -> (r: Result<NodeId, Error>)
        requires
            old(self).wf(), old(self).room(15), old(self).valid(x),
            old(self).sh(x).len() == 2 && old(self).dt(x).spec_is_arith()
                ==> old(self).dt(x).spec_is_signed() || old(self).dt(x).spec_is_complex(),
        ensures
            final(self).wf(), final(self).grew(*old(self), 15),
            r is Ok <==> old(self).sh(x).len() == 2 && old(self).dt(x).spec_is_arith(),
            r matches Ok(id) ==> final(self).valid(id) && final(self).dt(id) == old(self).dt(x)
                && final(self).sh(id) == seq![old(self).sh(x)[0], old(self).sh(x)[0]],
            r matches Ok(id) ==> is_cov_of(*final(self), id, x, old(self).sh(x)[1] as int),
    {
        let sh = self.shape(x);
        if sh.len() != 2 {
            return Err(Error::new("cov", ErrorKind::Invalid));
        }
        let obs = sh[1];
        let ghost s = sh@;
        proof {
            assert(s.remove(1) =~= seq![s[0]]);
            crate::graph::shape::lemma_numel_single(s[0]);
        }
        let m = self.mean(x, 1)?;
        let ghost g1 = *self;
        proof { assert(s.remove(1).insert(1, 1) =~= s.update(1, 1)); }
        let mb = ok_id(self.broadcast_back(m, &sh, 1));
        let ghost g2 = *self;
        let xc = ok_id(self.sub(x, mb));
        let ghost g3 = *self;
        let xct = ok_id(self.transpose(xc, 0, 1));
        let ghost g4 = *self;
        proof {
            assert(self.sh(xc) == s);
            assert(self.sh(xct) =~= seq![s[1], s[0]]);
            assert(s.take(0) =~= self.sh(xct).take(0));
        }
        let prod = ok_id(self.dot_last2(xc, xct, 2, true, false));
        let ghost g5 = *self;
        assert(self.sh(prod) =~= seq![s[0], s[0]]);
        let denom: u64 = if obs > 2 { obs as u64 - 1 } else { 1 };
        let rb = recip_count_bits(denom);
        let inv = self.scalar(prod, rb);
        let ghost g6 = *self;
        let r = self.mul(prod, inv);
        proof {
            if r is Ok {
                lemma_mean_kept(g1, *self, m, x, 1, obs as int);
                g1.lemma_node_kept(*self, m);
                lemma_spread_kept(g2, *self, mb, m);
                g3.lemma_node_kept(*self, xc);
                g3.lemma_arg_kept(*self, xc, 1);
                g4.lemma_node_kept(*self, xct);
                g5.lemma_node_kept(*self, prod);
                lemma_scalar_kept(g6, *self, inv, rb);
                assert(is_scalar_of(*self, inv, rb));
                assert(recip_scalar(*self, inv, if obs > 2 { obs - 1 } else { 1 }));
            }
        }
        r
    }

    /// Correlation matrix: the covariance divided by the outer product of the standard
    /// deviations (at least one feature).
    #[verifier::spinoff_prover]
    #[verifier::rlimit(60)]
    pub fn corrcoef(&mut self, x: NodeId) -> (r: Result<NodeId, Error>)
        requires
            old(self).wf(), old(self).room(27), old(self).valid(x),
            old(self).sh(x).len() == 2 && old(self).dt(x).spec_is_arith() ==> ({
                let f = old(self).sh(x)[0];
                &&& float_or_complex(old(self).dt(x))
                &&& f >= 1 && f * f <= usize::MAX && f < usize::MAX
            }),
        ensures
            final(self).wf(), final(self).grew(*old(self), 27),
            r is Ok <==> old(self).sh(x).len() == 2 && old(self).dt(x).spec_is_arith(),
            r matches Ok(id) ==> final(self).valid(id) && final(self).dt(id) == old(self).dt(x)
                && final(self).sh(id) == seq![old(self).sh(x)[0], old(self).sh(x)[0]],
            r matches Ok(id) ==> is_corrcoef_of(*final(self), id, x, old(self).sh(x)[0], old(self).sh(x)[1] as int),
    {
        let c = self.cov(x)?;
        let f = self.nodes[c.0 as usize].shape[0];
        let ghost sc = self.sh(c);
        proof {
            crate::graph::ops::nn::norm::lemma_numel2(f, f);
            assert(sc =~= seq![f, f]);
        }
        let ghost g1 = *self;
        let diag = ok_id(self.diagonal(c));
        let ghost g2 = *self;
        let s = self.sqrt(diag);
        let ghost g3 = *self;
        let cs: Vec<usize> = vec![f, 1];
        let rs: Vec<usize> = vec![1, f];
        proof {
            crate::graph::shape::lemma_numel_single(f);
            crate::graph::ops::nn::norm::lemma_numel2(f, 1);
            crate::graph::ops::nn::norm::lemma_numel2(1, f);
            assert(cs@ =~= seq![f, 1usize]);
            assert(rs@ =~= seq![1usize, f]);
        }
        let col = ok_id(self.reshape(s, cs));
        let ghost g4 = *self;
        let row = ok_id(self.reshape(s, rs));
        let ghost g5 = *self;
        let ff: Vec<usize> = vec![f, f];
        let ff2: Vec<usize> = vec![f, f];
        proof {
            assert(ff@ =~= seq![f, f]);
            assert(left_pad_ones(seq![f, 1usize], 2) =~= seq![f, 1usize]);
            assert(left_pad_ones(seq![1usize, f], 2) =~= seq![1usize, f]);
            assert(expand_ok(seq![f, 1usize], seq![f, f]));
            assert(expand_ok(seq![1usize, f], seq![f, f]));
        }
        let colb = ok_id(self.broadcast_to(col, ff));
        let ghost g6 = *self;
        let rowb = ok_id(self.broadcast_to(row, ff2));
        let ghost g7 = *self;
        let denom = ok_id(self.mul(colb, rowb));
        let ghost g8 = *self;
        let r = self.div(c, denom);
        proof {
            if r is Ok {
                lemma_cov_kept(g1, *self, c, x, old(self).sh(x)[1] as int);
                g2.lemma_node_kept(*self, diag);
                g2.lemma_arg_kept(*self, diag, 0);
                g3.lemma_node_kept(*self, s);
                g4.lemma_node_kept(*self, col);
                g5.lemma_node_kept(*self, row);
                g6.lemma_node_kept(*self, colb);
                g7.lemma_node_kept(*self, rowb);
                g8.lemma_node_kept(*self, denom);
                assert(self.srcs(colb) =~= seq![col]);
                assert(self.srcs(rowb) =~= seq![row]);
            }
        }
        r
    }
}

} // verus!
