//! Joining and splitting along an axis: concat (each part zero-padded into place, then
//! summed), stack (concat of unsqueezed parts) and split (consecutive slices).

use vstd::prelude::*;
use crate::error::{Error, ErrorKind};
use crate::dtype::DType;
use crate::graph::{Graph, NodeId, Op};
use crate::graph::shape::numel;
use crate::graph::ops::base::slicing::{pad_fits, padded};
use crate::graph::ops::base::scalar::ok_id;

verus! {

/// Sum of the first `k` entries of `v`.
pub open spec fn prefix_sum(v: Seq<usize>, k: int) -> int
    decreases k,
{
    if k <= 0 { 0 } else { prefix_sum(v, k - 1) + v[k - 1] }
}

pub proof fn lemma_prefix_sum_mono(v: Seq<usize>, i: int, j: int)
    requires 0 <= i <= j <= v.len(),
    ensures prefix_sum(v, i) <= prefix_sum(v, j), prefix_sum(v, i) >= 0,
    decreases j - i + j,
{
    if i < j {
        lemma_prefix_sum_mono(v, i, j - 1);
    } else if i > 0 {
        lemma_prefix_sum_mono(v, i - 1, i - 1);
    }
}

/// The sizes of `parts` along `axis`.
pub open spec fn axis_lens(g: Graph, parts: Seq<NodeId>, axis: int) -> Seq<usize> {
    parts.map_values(|p: NodeId| g.sh(p)[axis])
}

/// Parts agree on rank, on every dim but `axis`, and on dtype (any dtype: numeric parts are
/// summed, BOOL parts or-ed).
pub open spec fn concat_ok(g: Graph, parts: Seq<NodeId>, axis: int) -> bool {
    &&& parts.len() >= 1
    &&& forall|i: int| 0 <= i < parts.len() ==> g.sh(#[trigger] parts[i]).update(axis, 0) == g.sh(parts[0]).update(axis, 0)
        && g.dt(parts[i]) == g.dt(parts[0])
}

/// Node `pd` of `g` pads `p` by `(lo, hi)` along `axis` and by nothing along the other axes.
pub open spec fn pads_along(g: Graph, pd: NodeId, p: NodeId, axis: int, lo: int, hi: int) -> bool {
    &&& g.valid(pd) && g.srcs(pd) == seq![p]
    &&& g.opn(pd) matches Op::Pad { pads } && pads@.len() == g.sh(p).len()
        && pads@[axis] == (lo as usize, hi as usize)
        && forall|e: int| 0 <= e < pads@.len() && e != axis ==> #[trigger] pads@[e] == (0usize, 0usize)
}

/// Node `id` of `g` joins the first `k` of `parts` along `axis`: part `j` zero-padded to the
/// full extent `total` at offset `prefix_sum(lens, j)`, the padded parts summed (or-ed for
/// BOOL) in order.
pub open spec fn joins(g: Graph, id: NodeId, parts: Seq<NodeId>, axis: int, lens: Seq<usize>, total: int, k: int) -> bool
    decreases k,
{
    if k <= 1 {
        k == 1 && pads_along(g, id, parts[0], axis, 0, total - lens[0])
    } else {
        let prev = g.arg(id, 0);
        let pd = g.arg(id, 1);
        &&& g.valid(id) && g.srcs(id) == seq![prev, pd]
        &&& (g.opn(id) == Op::Add || g.opn(id) == Op::Or)
        &&& pads_along(g, pd, parts[k - 1], axis, prefix_sum(lens, k - 1), total - prefix_sum(lens, k))
        &&& joins(g, prev, parts, axis, lens, total, k - 1)
    }
}

/// A join stays one as the graph grows.
pub proof fn lemma_joins_kept(g0: Graph, g1: Graph, id: NodeId, parts: Seq<NodeId>, axis: int, lens: Seq<usize>, total: int, k: int)
    requires g0.wf(), joins(g0, id, parts, axis, lens, total, k), g1.extends(g0), forall|j: int| 0 <= j < parts.len() ==> g0.valid(#[trigger] parts[j]), k <= parts.len(),
    ensures joins(g1, id, parts, axis, lens, total, k),
    decreases k,
{
    assert(g1.nodes@[id.0 as int] == g0.nodes@[id.0 as int]);
    if k <= 1 {
        assert(g1.nodes@[parts[0].0 as int] == g0.nodes@[parts[0].0 as int]);
    } else {
        g0.lemma_arg_kept(g1, id, 0);
        g0.lemma_arg_kept(g1, id, 1);
        assert(g1.nodes@[parts[k - 1].0 as int] == g0.nodes@[parts[k - 1].0 as int]);
        lemma_joins_kept(g0, g1, g0.arg(id, 0), parts, axis, lens, total, k - 1);
    }
}

/// Node `id` of `g` is the slice `[lo, hi)` of `x` (shape `s`) along `axis`.
pub open spec fn is_piece(g: Graph, id: NodeId, x: NodeId, s: Seq<usize>, axis: int, lo: int, hi: int) -> bool {
    &&& g.srcs(id) == seq![x]
    &&& g.opn(id) matches Op::Slice { ranges }
        && ranges@ == crate::graph::ops::base::signal::axis_window(s, axis, lo as usize, hi as usize)
            .map_values(|q: (usize, usize)| (q.0, q.1, 1usize))
}

proof fn lemma_update_eq(x: Seq<usize>, y: Seq<usize>, a: int, t: usize)
    requires 0 <= a < x.len(), 0 <= a < y.len(),
    ensures (x.update(a, t) == y.update(a, t)) == (x.update(a, 0) == y.update(a, 0)),
{
    if x.update(a, 0) == y.update(a, 0) {
        assert(x.len() == x.update(a, 0).len() && y.len() == y.update(a, 0).len());
        assert forall|d: int| 0 <= d < x.len() implies x.update(a, t)[d] == y.update(a, t)[d] by {
            if d != a {
                assert(x.update(a, 0)[d] == y.update(a, 0)[d]);
            }
        }
        assert(x.update(a, t) =~= y.update(a, t));
    }
    if x.update(a, t) == y.update(a, t) {
        assert(x.len() == x.update(a, t).len() && y.len() == y.update(a, t).len());
        assert forall|d: int| 0 <= d < x.len() implies x.update(a, 0)[d] == y.update(a, 0)[d] by {
            if d != a {
                assert(x.update(a, t)[d] == y.update(a, t)[d]);
            }
        }
        assert(x.update(a, 0) =~= y.update(a, 0));
    }
}

/// Node `id` of `g` is `x` (shape `s`) with a size-1 axis inserted at `axis`.
pub open spec fn is_unsqueeze_of(g: Graph, id: NodeId, x: NodeId, s: Seq<usize>, axis: int) -> bool {
    g.srcs(id) == seq![x] && (g.opn(id) matches Op::Reshape { shape } && shape@ == s.insert(axis, 1))
}

/// Node `id` of `g` stacks `parts` (taken in `g0`) along a new `axis`: the parts, each given a
/// size-1 axis there (the nodes `us`), joined along it one after the other.
pub open spec fn stacks(g: Graph, id: NodeId, us: Seq<NodeId>, parts: Seq<NodeId>, g0: Graph, axis: int) -> bool {
    let n = parts.len();
    &&& us.len() == n
    &&& joins(g, id, us, axis, Seq::new(n, |j: int| 1usize), n as int, n as int)
    &&& forall|j: int| 0 <= j < n ==> g.valid(#[trigger] us[j]) && is_unsqueeze_of(g, us[j], parts[j], g0.sh(parts[j]), axis)
}

/// A stack stays one as the graph grows.
pub proof fn lemma_stacks_kept(g0: Graph, g1: Graph, id: NodeId, us: Seq<NodeId>, parts: Seq<NodeId>, gp: Graph, axis: int)
    requires g0.wf(), stacks(g0, id, us, parts, gp, axis), g1.extends(g0),
    ensures stacks(g1, id, us, parts, gp, axis),
{
    let n = parts.len();
    lemma_joins_kept(g0, g1, id, us, axis, Seq::new(n, |j: int| 1usize), n as int, n as int);
    assert forall|j: int| 0 <= j < n implies g1.valid(#[trigger] us[j]) && is_unsqueeze_of(g1, us[j], parts[j], gp.sh(parts[j]), axis) by {
        g0.lemma_node_kept(g1, us[j]);
    }
}

impl Graph {
    /// Concatenate `parts` along `axis`.
    #[verifier::loop_isolation(false)]
    #[verifier::spinoff_prover]
    pub fn concat(&mut self, parts: &[NodeId], axis: usize) -> (r: Result<NodeId, Error>)
        requires
            old(self).wf(), old(self).room(2 * parts@.len()), old(self).all_valid(parts@),
            forall|i: int| 0 <= i < parts@.len() ==> axis < old(self).sh(#[trigger] parts@[i]).len(),
            prefix_sum(axis_lens(*old(self), parts@, axis as int), parts@.len() as int) <= usize::MAX,
        ensures
            final(self).wf(), final(self).grew(*old(self), 2 * parts@.len()),
            r is Ok <==> concat_ok(*old(self), parts@, axis as int),
            r matches Ok(id) ==> final(self).valid(id)
                && final(self).sh(id) == old(self).sh(parts@[0]).update(axis as int,
                    prefix_sum(axis_lens(*old(self), parts@, axis as int), parts@.len() as int) as usize)
                && final(self).dt(id) == old(self).dt(parts@[0]),
            r matches Ok(id) ==> joins(*final(self), id, parts@, axis as int, axis_lens(*old(self), parts@, axis as int),
                prefix_sum(axis_lens(*old(self), parts@, axis as int), parts@.len() as int), parts@.len() as int),
    {
        let ghost g0 = *self;
        let ghost lens = axis_lens(g0, parts@, axis as int);
        let n = parts.len();
        let mut total: usize = 0;
        let mut i: usize = 0;
        while i < n
            invariant i <= n, total == prefix_sum(lens, i as int), g0 == *self,
            decreases n - i,
        {
            proof { lemma_prefix_sum_mono(lens, i + 1, n as int); }
            assert(self.valid(parts@[i as int]));
            total = total + self.nodes[parts[i].0 as usize].shape[axis];
            i = i + 1;
        }
        if n == 0 {
            return Err(Error::new("concat", ErrorKind::Invalid));
        }
        let ghost s0 = g0.sh(parts@[0]);
        let mut offset: usize = 0;
        let mut acc: NodeId = parts[0];
        let mut i: usize = 0;
        while i < n
            invariant
                i <= n, n == parts@.len(), n >= 1, total == prefix_sum(lens, n as int),
                offset == prefix_sum(lens, i as int),
                self.wf(), self.grew(g0, 2 * i as nat),
                i >= 1 ==> self.valid(acc) && self.sh(acc) == s0.update(axis as int, total) && self.dt(acc) == g0.dt(parts@[0]),
                i >= 1 ==> joins(*self, acc, parts@, axis as int, lens, total as int, i as int),
                forall|j: int| 0 <= j < i ==> g0.sh(#[trigger] parts@[j]).update(axis as int, 0) == s0.update(axis as int, 0)
                    && g0.dt(parts@[j]) == g0.dt(parts@[0]),
            decreases n - i,
        {
            let p = parts[i];
            proof {
                lemma_prefix_sum_mono(lens, i + 1, n as int);
                assert(g0.valid(parts@[i as int]));
            }
            let li = self.nodes[p.0 as usize].shape[axis];
            let rank = self.rank(p);
            let mut pads: Vec<(usize, usize)> = Vec::new();
            let mut d: usize = 0;
            while d < rank
                invariant d <= rank, pads@.len() == d, forall|e: int| 0 <= e < d ==> #[trigger] pads@[e] == (0usize, 0usize),
                decreases rank - d,
            {
                pads.push((0, 0));
                d = d + 1;
            }
            pads.set(axis, (offset, total - offset - li));
            let ghost ps = pads@;
            let ghost sp = self.sh(p);
            proof {
                assert(sp == g0.sh(p));
                assert(pad_fits(sp, ps)) by {
                    assert forall|e: int| 0 <= e < ps.len() && e < sp.len() implies (#[trigger] ps[e]).0 + sp[e] + ps[e].1 <= usize::MAX by {
                        if e != axis { assert(ps[e] == (0usize, 0usize)); }
                    }
                }
                assert(padded(sp, ps) =~= sp.update(axis as int, total)) by {
                    assert forall|e: int| 0 <= e < sp.len() implies padded(sp, ps)[e] == sp.update(axis as int, total)[e] by {
                        if e != axis { assert(ps[e] == (0usize, 0usize)); }
                    }
                }
            }
            let ghost gp = *self;
            let padded_p = ok_id(self.pad(p, pads));
            let ghost gq = *self;
            proof {
                assert(g0.valid(p));
                assert(self.nodes@[p.0 as int] == gp.nodes@[p.0 as int]);
                assert(pads_along(*self, padded_p, p, axis as int, offset as int, total - offset - li));
            }
            if i == 0 {
                acc = padded_p;
            } else {
                let ghost acc0 = acc;
                let ghost sa = self.sh(acc);
                proof { lemma_update_eq(sp, s0, axis as int, total); }
                let joined = if self.dtype(acc) == DType::BOOL {
                    self.or(acc, padded_p)
                } else {
                    self.add(acc, padded_p)
                };
                acc = match joined {
                    Ok(a) => a,
                    Err(e) => {
                        proof {
                            assert(!concat_ok(g0, parts@, axis as int)) by {
                                if concat_ok(g0, parts@, axis as int) {
                                    assert(g0.sh(parts@[i as int]).update(axis as int, 0) == s0.update(axis as int, 0));
                                }
                            }
                        }
                        return Err(e);
                    },
                };
                proof {
                    lemma_update_eq(sp, s0, axis as int, total);
                    assert forall|j: int| 0 <= j < parts@.len() implies gp.valid(#[trigger] parts@[j]) by {
                        assert(g0.valid(parts@[j]));
                    }
                    lemma_joins_kept(gp, *self, acc0, parts@, axis as int, lens, total as int, i as int);
                    assert(self.nodes@[padded_p.0 as int] == gq.nodes@[padded_p.0 as int]);
                    assert(self.nodes@[p.0 as int] == gq.nodes@[p.0 as int]);
                    assert(pads_along(*self, padded_p, p, axis as int, offset as int, total - offset - li));
                    assert(prefix_sum(lens, i + 1) == prefix_sum(lens, i as int) + lens[i as int]);
                }
            }
            offset = offset + li;
            i = i + 1;
        }
        Ok(acc)
    }

    /// Stack equally shaped `parts` along a new axis `axis`.
    #[verifier::loop_isolation(false)]
    pub fn stack(&mut self, parts: &[NodeId], axis: usize) -> (r: Result<NodeId, Error>)
        requires
            old(self).wf(), old(self).room(3 * parts@.len()), old(self).all_valid(parts@),
            forall|i: int| 0 <= i < parts@.len() ==> axis <= old(self).sh(#[trigger] parts@[i]).len()
                && numel(old(self).sh(parts@[i])) <= usize::MAX,
        ensures
            final(self).wf(), final(self).grew(*old(self), 3 * parts@.len()),
            r is Ok <==> parts@.len() >= 1
                && (forall|i: int| 0 <= i < parts@.len() ==> old(self).sh(#[trigger] parts@[i]) == old(self).sh(parts@[0])
                    && old(self).dt(parts@[i]) == old(self).dt(parts@[0])),
            r matches Ok(id) ==> final(self).valid(id)
                && final(self).sh(id) == old(self).sh(parts@[0]).insert(axis as int, parts@.len() as usize)
                && final(self).dt(id) == old(self).dt(parts@[0]),
            r matches Ok(id) ==> exists|us: Seq<NodeId>| #[trigger] stacks(*final(self), id, us, parts@, *old(self), axis as int),
    {
        let ghost g0 = *self;
        let n = parts.len();
        let mut un: Vec<NodeId> = Vec::new();
        let mut i: usize = 0;
        while i < n
            invariant
                i <= n, n == parts@.len(), un@.len() == i,
                self.wf(), self.grew(g0, i as nat),
                forall|j: int| 0 <= j < i ==> self.valid(#[trigger] un@[j])
                    && self.sh(un@[j]) == g0.sh(parts@[j]).insert(axis as int, 1) && self.dt(un@[j]) == g0.dt(parts@[j])
                    && is_unsqueeze_of(*self, un@[j], parts@[j], g0.sh(parts@[j]), axis as int),
            decreases n - i,
        {
            let p = parts[i];
            assert(g0.valid(parts@[i as int]));
            let u = ok_id(self.unsqueeze(p, axis));
            un.push(u);
            i = i + 1;
        }
        let ghost g1 = *self;
        proof {
            let lens = axis_lens(g1, un@, axis as int);
            assert forall|k: int| 0 <= k <= n implies prefix_sum(lens, k) == k by {
                lemma_prefix_ones(lens, k);
            }
            assert forall|j: int| 0 <= j < n implies #[trigger] g0.sh(parts@[j]).insert(axis as int, 1).update(axis as int, 0)
                == g0.sh(parts@[j]).insert(axis as int, 0) by {
                assert(g0.sh(parts@[j]).insert(axis as int, 1).update(axis as int, 0) =~= g0.sh(parts@[j]).insert(axis as int, 0));
            }
            assert forall|j: int| 0 <= j < n implies (#[trigger] g0.sh(parts@[j]).insert(axis as int, 0) == g0.sh(parts@[0]).insert(axis as int, 0))
                == (g0.sh(parts@[j]) == g0.sh(parts@[0])) by {
                lemma_insert_eq(g0.sh(parts@[j]), g0.sh(parts@[0]), axis as int);
            }
        }
        proof {
            assert forall|j: int| 0 <= j < n implies
                ((#[trigger] g1.sh(un@[j])).update(axis as int, 0) == g1.sh(un@[0]).update(axis as int, 0) && g1.dt(un@[j]) == g1.dt(un@[0]))
                == (g0.sh(parts@[j]) == g0.sh(parts@[0]) && g0.dt(parts@[j]) == g0.dt(parts@[0])) by {
                assert(g1.sh(un@[j]).update(axis as int, 0) == g0.sh(parts@[j]).insert(axis as int, 0));
                assert(g1.sh(un@[0]).update(axis as int, 0) == g0.sh(parts@[0]).insert(axis as int, 0));
            }
            let want = n >= 1
                && (forall|i: int| 0 <= i < n ==> g0.sh(#[trigger] parts@[i]) == g0.sh(parts@[0]) && g0.dt(parts@[i]) == g0.dt(parts@[0]))
                && (n >= 2 ==> g0.dt(parts@[0]).spec_is_arith());
            if concat_ok(g1, un@, axis as int) {
                assert forall|i: int| 0 <= i < n implies g0.sh(#[trigger] parts@[i]) == g0.sh(parts@[0]) && g0.dt(parts@[i]) == g0.dt(parts@[0]) by {
                    assert(g1.sh(un@[i]).update(axis as int, 0) == g1.sh(un@[0]).update(axis as int, 0) && g1.dt(un@[i]) == g1.dt(un@[0]));
                }
            }
            if want {
                assert forall|i: int| 0 <= i < un@.len() implies g1.sh(#[trigger] un@[i]).update(axis as int, 0) == g1.sh(un@[0]).update(axis as int, 0)
                    && g1.dt(un@[i]) == g1.dt(un@[0]) by {
                    assert(g0.sh(parts@[i]) == g0.sh(parts@[0]) && g0.dt(parts@[i]) == g0.dt(parts@[0]));
                }
            }
        }
        let r = self.concat(un.as_slice(), axis);
        proof {
            if n >= 1 {
                assert(g0.sh(parts@[0]).insert(axis as int, 1).update(axis as int, n as usize)
                    =~= g0.sh(parts@[0]).insert(axis as int, n as usize));
            }
            if r is Ok {
                let lens = axis_lens(g1, un@, axis as int);
                assert(lens =~= Seq::new(n as nat, |j: int| 1usize));
                assert(prefix_sum(lens, n as int) == n);
                assert forall|j: int| 0 <= j < n implies self.valid(#[trigger] un@[j]) && is_unsqueeze_of(*self, un@[j], parts@[j], g0.sh(parts@[j]), axis as int) by {
                    g1.lemma_node_kept(*self, un@[j]);
                }
                assert(stacks(*self, r->Ok_0, un@, parts@, g0, axis as int));
            }
        }
        r
    }

    /// Split `x` along `axis` into consecutive pieces of the given sizes.
    #[verifier::loop_isolation(false)]
    pub fn split(&mut self, x: NodeId, sizes: &[usize], axis: usize) -> (r: Result<Vec<NodeId>, Error>)
        requires
            old(self).wf(), old(self).room(sizes@.len()), old(self).valid(x), axis < old(self).sh(x).len(),
            prefix_sum(sizes@, sizes@.len() as int) <= usize::MAX,
        ensures
            final(self).wf(), final(self).grew(*old(self), sizes@.len()),
            r is Ok <==> prefix_sum(sizes@, sizes@.len() as int) <= old(self).sh(x)[axis as int],
            r matches Ok(v) ==> v@.len() == sizes@.len() && forall|i: int| 0 <= i < v@.len() ==>
                final(self).valid(#[trigger] v@[i]) && final(self).sh(v@[i]) == old(self).sh(x).update(axis as int, sizes@[i])
                    && final(self).dt(v@[i]) == old(self).dt(x),
            r matches Ok(v) ==> forall|i: int| 0 <= i < v@.len() ==> #[trigger] is_piece(*final(self), v@[i], x,
                old(self).sh(x), axis as int, prefix_sum(sizes@, i), prefix_sum(sizes@, i + 1)),
    {
        let ghost g0 = *self;
        let sh = self.shape(x);
        let n = sizes.len();
        let mut out: Vec<NodeId> = Vec::new();
        let mut start: usize = 0;
        let mut i: usize = 0;
        while i < n
            invariant
                i <= n, n == sizes@.len(), sh@ == g0.sh(x), out@.len() == i,
                start == prefix_sum(sizes@, i as int), start <= sh@[axis as int],
                self.wf(), self.grew(g0, i as nat),
                forall|j: int| 0 <= j < i ==> self.valid(#[trigger] out@[j])
                    && self.sh(out@[j]) == sh@.update(axis as int, sizes@[j]) && self.dt(out@[j]) == g0.dt(x)
                    && is_piece(*self, out@[j], x, sh@, axis as int, prefix_sum(sizes@, j), prefix_sum(sizes@, j + 1)),
            decreases n - i,
        {
            proof { lemma_prefix_sum_mono(sizes@, i + 1, n as int); }
            let sz = sizes[i];
            let mut ranges: Vec<(usize, usize)> = Vec::new();
            let mut d: usize = 0;
            while d < sh.len()
                invariant d <= sh@.len(), ranges@.len() == d, forall|e: int| 0 <= e < d ==> #[trigger] ranges@[e] == (0usize, sh@[e]),
                decreases sh@.len() - d,
            {
                ranges.push((0, sh[d]));
                d = d + 1;
            }
            ranges.set(axis, (start, start + sz));
            let ghost rg = ranges@;
            let ghost gi = *self;
            proof {
                if start + sz <= sh@[axis as int] {
                    assert forall|e: int| 0 <= e < rg.len() implies (#[trigger] rg[e]).0 <= rg[e].1 <= gi.sh(x)[e] by {
                        if e != axis { assert(rg[e] == (0usize, sh@[e])); }
                    }
                } else {
                    assert(!(rg[axis as int].0 <= rg[axis as int].1 <= gi.sh(x)[axis as int]));
                    lemma_prefix_sum_mono(sizes@, i + 1, n as int);
                }
            }
            let piece = self.slice(x, ranges)?;
            proof {
                assert(rg.map_values(|r: (usize, usize)| (r.1 - r.0) as usize) =~= sh@.update(axis as int, sz));
                assert(rg =~= crate::graph::ops::base::signal::axis_window(sh@, axis as int, start, (start + sz) as usize));
                assert(prefix_sum(sizes@, i + 1) == start + sz);
                assert forall|j: int| 0 <= j < i implies #[trigger] is_piece(*self, out@[j], x, sh@, axis as int,
                    prefix_sum(sizes@, j), prefix_sum(sizes@, j + 1)) by {
                    assert(self.nodes@[out@[j].0 as int] == gi.nodes@[out@[j].0 as int]);
                }
            }
            out.push(piece);
            start = start + sz;
            i = i + 1;
        }
        Ok(out)
    }
}

proof fn lemma_prefix_ones(v: Seq<usize>, k: int)
    requires 0 <= k <= v.len(), forall|i: int| 0 <= i < v.len() ==> v[i] == 1,
    ensures prefix_sum(v, k) == k,
    decreases k,
{
    if k > 0 {
        lemma_prefix_ones(v, k - 1);
    }
}

proof fn lemma_insert_eq(x: Seq<usize>, y: Seq<usize>, a: int)
    requires 0 <= a <= x.len(), 0 <= a <= y.len(),
    ensures (x.insert(a, 0) == y.insert(a, 0)) == (x == y),
{
    if x.insert(a, 0) == y.insert(a, 0) {
        assert(x.insert(a, 0).len() == x.len() + 1 && y.insert(a, 0).len() == y.len() + 1);
        assert(x.len() == y.len());
        assert forall|d: int| 0 <= d < x.len() implies x[d] == y[d] by {
            if d < a {
                assert(x.insert(a, 0)[d] == y.insert(a, 0)[d]);
            } else {
                assert(x.insert(a, 0)[d + 1] == y.insert(a, 0)[d + 1]);
            }
        }
        assert(x =~= y);
    }
}

} // verus!
