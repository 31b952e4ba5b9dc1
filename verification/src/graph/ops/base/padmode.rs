//! Non-constant padding: reflect, replicate and circular, built per axis from slices of the
//! tensor itself and joined by concatenation.

use vstd::prelude::*;
use crate::error::{Error, ErrorKind};
use crate::graph::{Graph, NodeId, Op};
use crate::graph::ops::base::scalar::ok_id;
use crate::graph::ops::base::signal::axis_ranges;
use crate::graph::ops::base::join::{axis_lens, prefix_sum, joins, is_piece, lemma_joins_kept};
use crate::graph::shape::expand_ok;
use crate::text::str_eq;

verus! {

/// How the border is filled.
#[derive(Clone, Copy, PartialEq, Eq, Structural, Debug)]
pub enum PadMode {
    Reflect,
    Replicate,
    Circular,
}

/// The mode a `pad_mode` name selects.
pub open spec fn pad_mode_of(m: Seq<char>) -> Option<PadMode> {
    if m == "reflect"@ {
        Some(PadMode::Reflect)
    } else if m == "replicate"@ {
        Some(PadMode::Replicate)
    } else if m == "circular"@ {
        Some(PadMode::Circular)
    } else {
        None
    }
}

/// A border block of width `p` fits an axis of length `l` under `mode`.
pub open spec fn edge_ok(mode: PadMode, l: usize, p: usize) -> bool {
    match mode {
        PadMode::Reflect => p < l,
        PadMode::Circular => p <= l,
        PadMode::Replicate => l >= 1,
    }
}

/// Every nonzero border of `pads` fits its axis of `s`.
pub open spec fn pads_ok(mode: PadMode, s: Seq<usize>, pads: Seq<(usize, usize)>) -> bool {
    forall|d: int| 0 <= d < pads.len() ==> {
        let p = #[trigger] pads[d];
        &&& p.0 > 0 ==> edge_ok(mode, s[d], p.0)
        &&& p.1 > 0 ==> edge_ok(mode, s[d], p.1)
    }
}

/// The padded shape.
pub open spec fn mode_padded(s: Seq<usize>, pads: Seq<(usize, usize)>) -> Seq<usize> {
    Seq::new(s.len(), |d: int| (pads[d].0 + s[d] + pads[d].1) as usize)
}

/// Node `id` of `g` is the `p`-wide border block of `x` (shape `s`, `l` long on axis `d`) on
/// the left (or right) side for `mode`: the edge slice repeated (replicate), the `p` slices
/// next to the edge mirrored (reflect), or the `p` slices of the other end (circular).
pub open spec fn is_edge_of(g: Graph, id: NodeId, x: NodeId, s: Seq<usize>, d: int, l: int, p: int, is_left: bool, mode: PadMode) -> bool {
    match mode {
        PadMode::Replicate => g.opn(id) is Expand && g.srcs(id).len() == 1
            && is_piece(g, g.arg(id, 0), x, s, d, if is_left { 0 } else { l - 1 }, if is_left { 1 } else { l }),
        PadMode::Reflect => g.srcs(id).len() == 1 && (g.opn(id) matches Op::Flip { axes } && axes@ == seq![d as usize])
            && is_piece(g, g.arg(id, 0), x, s, d, if is_left { 1 } else { l - 1 - p }, if is_left { p + 1 } else { l - 1 }),
        PadMode::Circular => is_piece(g, id, x, s, d, if is_left { l - p } else { 0 }, if is_left { l } else { p }),
    }
}

/// The parts that `pad_axis` joined into node `id` of `g`: the left border (when `before > 0`),
/// the tensor, the right border (when `after > 0`).
pub open spec fn pad_parts(g: Graph, id: NodeId, before: usize, after: usize) -> Seq<NodeId> {
    if before > 0 && after > 0 {
        seq![g.arg(g.arg(g.arg(id, 0), 0), 0), g.arg(g.arg(g.arg(id, 0), 1), 0), g.arg(g.arg(id, 1), 0)]
    } else {
        seq![g.arg(g.arg(id, 0), 0), g.arg(g.arg(id, 1), 0)]
    }
}

/// Node `id` of `g` pads `x` (shape `s`) along axis `d` by `(before, after)` with `mode`: the
/// border blocks and `x` joined along `d`.
pub open spec fn pads_axis(g: Graph, id: NodeId, x: NodeId, s: Seq<usize>, d: int, before: usize, after: usize, mode: PadMode) -> bool {
    let ps = pad_parts(g, id, before, after);
    let l = s[d];
    let lens = if before > 0 && after > 0 { seq![before, l, after] } else if before > 0 { seq![before, l] } else { seq![l, after] };
    &&& joins(g, id, ps, d, lens, before + l + after, ps.len() as int)
    &&& ps[if before > 0 { 1int } else { 0int }] == x
    &&& before > 0 ==> is_edge_of(g, ps[0], x, s, d, l as int, before as int, true, mode)
    &&& after > 0 ==> is_edge_of(g, ps[ps.len() - 1], x, s, d, l as int, after as int, false, mode)
}

/// A border block stays one as the graph grows.
pub proof fn lemma_edge_kept(g0: Graph, g1: Graph, id: NodeId, x: NodeId, s: Seq<usize>, d: int, l: int, p: int, is_left: bool, mode: PadMode)
    requires g0.wf(), g0.valid(id), is_edge_of(g0, id, x, s, d, l, p, is_left, mode), g1.extends(g0),
    ensures is_edge_of(g1, id, x, s, d, l, p, is_left, mode),
{
    assert(g1.nodes@[id.0 as int] == g0.nodes@[id.0 as int]);
    if mode != PadMode::Circular {
        g0.lemma_arg_kept(g1, id, 0);
    }
}

/// A per-axis padding stays one as the graph grows.
pub proof fn lemma_pads_axis_kept(g0: Graph, g1: Graph, id: NodeId, x: NodeId, s: Seq<usize>, d: int, before: usize, after: usize, mode: PadMode)
    requires g0.wf(), pads_axis(g0, id, x, s, d, before, after, mode), g1.extends(g0), before + after > 0,
    ensures pads_axis(g1, id, x, s, d, before, after, mode),
{
    let ps = pad_parts(g0, id, before, after);
    let l = s[d];
    let lens = if before > 0 && after > 0 { seq![before, l, after] } else if before > 0 { seq![before, l] } else { seq![l, after] };
    let k = ps.len() as int;
    g0.lemma_arg_kept(g1, id, 0);
    g0.lemma_arg_kept(g1, id, 1);
    let j = g0.arg(id, 0);
    let p = g0.arg(id, 1);
    assert(g0.srcs(p).len() == 1);
    g0.lemma_arg_kept(g1, p, 0);
    if k == 3 {
        assert(joins(g0, j, ps, d, lens, before + l + after, 2));
        assert(joins(g0, g0.arg(j, 0), ps, d, lens, before + l + after, 1));
        g0.lemma_arg_kept(g1, j, 0);
        g0.lemma_arg_kept(g1, j, 1);
        g0.lemma_arg_kept(g1, g0.arg(j, 0), 0);
        g0.lemma_arg_kept(g1, g0.arg(j, 1), 0);
    } else {
        assert(joins(g0, j, ps, d, lens, before + l + after, 1));
        g0.lemma_arg_kept(g1, j, 0);
    }
    assert(pad_parts(g1, id, before, after) =~= ps);
    assert forall|i: int| 0 <= i < ps.len() implies g0.valid(#[trigger] ps[i]) by {}
    lemma_joins_kept(g0, g1, id, ps, d, lens, before + l + after, k);
    if before > 0 {
        lemma_edge_kept(g0, g1, ps[0], x, s, d, l as int, before as int, true, mode);
    }
    if after > 0 {
        lemma_edge_kept(g0, g1, ps[k - 1], x, s, d, l as int, after as int, false, mode);
    }
}

/// The shape of `s` with the axes before `k` padded by `pads`.
pub open spec fn padded_upto(s: Seq<usize>, pads: Seq<(usize, usize)>, k: int) -> Seq<usize> {
    Seq::new(s.len(), |j: int| if j < k { (pads[j].0 + s[j] + pads[j].1) as usize } else { s[j] })
}

/// The tensor that the per-axis padding at node `id` bordered.
pub open spec fn pad_input(g: Graph, id: NodeId, before: usize, after: usize) -> NodeId {
    pad_parts(g, id, before, after)[if before > 0 { 1int } else { 0int }]
}

/// Node `id` of `g` pads the axes before `k` of `x` (shape `s`) by `pads` with `mode`, one
/// axis after the other, an axis padded by `(0, 0)` left as it is.
pub open spec fn pads_upto(g: Graph, id: NodeId, x: NodeId, s: Seq<usize>, pads: Seq<(usize, usize)>, mode: PadMode, k: int) -> bool
    decreases k,
{
    if k <= 0 {
        id == x
    } else {
        let b = pads[k - 1].0;
        let a = pads[k - 1].1;
        if b == 0 && a == 0 {
            pads_upto(g, id, x, s, pads, mode, k - 1)
        } else {
            let prev = pad_input(g, id, b, a);
            &&& pads_axis(g, id, prev, padded_upto(s, pads, k - 1), k - 1, b, a, mode)
            &&& pads_upto(g, prev, x, s, pads, mode, k - 1)
        }
    }
}

/// A padding of several axes stays one as the graph grows.
pub proof fn lemma_pads_upto_kept(g0: Graph, g1: Graph, id: NodeId, x: NodeId, s: Seq<usize>, pads: Seq<(usize, usize)>, mode: PadMode, k: int)
    requires g0.wf(), pads_upto(g0, id, x, s, pads, mode, k), g1.extends(g0),
    ensures pads_upto(g1, id, x, s, pads, mode, k),
    decreases k,
{
    if k > 0 {
        let b = pads[k - 1].0;
        let a = pads[k - 1].1;
        if b == 0 && a == 0 {
            lemma_pads_upto_kept(g0, g1, id, x, s, pads, mode, k - 1);
        } else {
            let prev = pad_input(g0, id, b, a);
            lemma_pads_axis_kept(g0, g1, id, prev, padded_upto(s, pads, k - 1), k - 1, b, a, mode);
            lemma_pads_upto_kept(g0, g1, prev, x, s, pads, mode, k - 1);
        }
    }
}

impl Graph {
    /// One border block of width `p >= 1` on axis `d` (length `l`) of `x`, before the data
    /// (`is_left`) or after it.
    fn pad_edge(&mut self, x: NodeId, d: usize, l: usize, p: usize, is_left: bool, mode: PadMode)
        -> (r: Result<NodeId, Error>)
        requires
            old(self).wf(), old(self).room(2), old(self).valid(x), d < old(self).sh(x).len(),
            l == old(self).sh(x)[d as int], p >= 1,
            mode == PadMode::Replicate && !is_left ==> l >= 1,
        ensures
            final(self).wf(), final(self).grew(*old(self), 2),
            r is Ok <==> edge_ok(mode, l, p),
            r matches Ok(id) ==> final(self).valid(id) && final(self).dt(id) == old(self).dt(x)
                && final(self).sh(id) == old(self).sh(x).update(d as int, p),
            r matches Ok(id) ==> is_edge_of(*final(self), id, x, old(self).sh(x), d as int, l as int, p as int, is_left, mode),
    {
        let sh = self.shape(x);
        match mode {
            PadMode::Replicate => {
                let rg = if is_left { axis_ranges(&sh, d, 0, 1) } else { axis_ranges(&sh, d, l - 1, l) };
                proof {
                    if l >= 1 {
                        assert forall|k: int| 0 <= k < rg@.len() implies (#[trigger] rg@[k]).0 <= rg@[k].1 <= sh@[k] by {}
                        assert(rg@.map_values(|q: (usize, usize)| (q.1 - q.0) as usize) =~= sh@.update(d as int, 1));
                    } else {
                        assert(!(rg@[d as int].0 <= rg@[d as int].1 <= sh@[d as int]));
                    }
                }
                let edge = self.slice(x, rg)?;
                let mut es = self.shape(x);
                es.set(d, p);
                assert(expand_ok(self.sh(edge), es@));
                Ok(ok_id(self.expand(edge, es)))
            },
            PadMode::Reflect => {
                if p >= l {
                    return Err(Error::new("pad_mode", ErrorKind::Invalid));
                }
                let rg = if is_left { axis_ranges(&sh, d, 1, p + 1) } else { axis_ranges(&sh, d, l - 1 - p, l - 1) };
                proof {
                    assert forall|k: int| 0 <= k < rg@.len() implies (#[trigger] rg@[k]).0 <= rg@[k].1 <= sh@[k] by {}
                    assert(rg@.map_values(|q: (usize, usize)| (q.1 - q.0) as usize) =~= sh@.update(d as int, p));
                }
                let sl = ok_id(self.slice(x, rg));
                let axes: Vec<usize> = vec![d];
                assert(axes@ =~= seq![d]);
                Ok(ok_id(self.flip(sl, axes)))
            },
            PadMode::Circular => {
                if p > l {
                    return Err(Error::new("pad_mode", ErrorKind::Invalid));
                }
                let rg = if is_left { axis_ranges(&sh, d, l - p, l) } else { axis_ranges(&sh, d, 0, p) };
                proof {
                    assert forall|k: int| 0 <= k < rg@.len() implies (#[trigger] rg@[k]).0 <= rg@[k].1 <= sh@[k] by {}
                    assert(rg@.map_values(|q: (usize, usize)| (q.1 - q.0) as usize) =~= sh@.update(d as int, p));
                }
                Ok(ok_id(self.slice(x, rg)))
            },
        }
    }

    /// Pad axis `d` of `cur` by `(before, after)` (not both zero) with border blocks.
    #[verifier::spinoff_prover]
    #[verifier::rlimit(40)]
    fn pad_axis(&mut self, cur: NodeId, d: usize, before: usize, after: usize, mode: PadMode) -> (r: Result<NodeId, Error>)
        requires
            old(self).wf(), old(self).room(10), old(self).valid(cur), d < old(self).sh(cur).len(),
            before + after > 0, before + old(self).sh(cur)[d as int] + after <= usize::MAX,
            mode == PadMode::Replicate && after > 0 ==> old(self).sh(cur)[d as int] >= 1,
        ensures
            final(self).wf(), final(self).grew(*old(self), 10),
            r is Ok <==> (before > 0 ==> edge_ok(mode, old(self).sh(cur)[d as int], before))
                && (after > 0 ==> edge_ok(mode, old(self).sh(cur)[d as int], after)),
            r matches Ok(id) ==> final(self).valid(id) && final(self).dt(id) == old(self).dt(cur)
                && final(self).sh(id) == old(self).sh(cur).update(d as int, (before + old(self).sh(cur)[d as int] + after) as usize),
            r matches Ok(id) ==> pads_axis(*final(self), id, cur, old(self).sh(cur), d as int, before, after, mode),
    {
        let l = self.shape(cur)[d];
        let ghost g00 = *self;
        let mut parts: Vec<NodeId> = Vec::new();
        if before > 0 {
            let e = self.pad_edge(cur, d, l, before, true, mode)?;
            parts.push(e);
        }
        let ghost g1 = *self;
        parts.push(cur);
        if after > 0 {
            let e = self.pad_edge(cur, d, l, after, false, mode)?;
            parts.push(e);
        }
        proof {
            if before > 0 {
                assert(self.nodes@[cur.0 as int] == g00.nodes@[cur.0 as int]);
                lemma_edge_kept(g1, *self, parts@[0], cur, g00.sh(cur), d as int, l as int, before as int, true, mode);
            }
        }
        let ghost ps = parts@;
        let ghost s = self.sh(cur);
        assert(ps.len() >= 2);
        assert(forall|i: int| 0 <= i < ps.len() ==> self.valid(#[trigger] ps[i]) && d < self.sh(ps[i]).len()
            && self.sh(ps[i]).update(d as int, 0) == s.update(d as int, 0) && self.dt(ps[i]) == self.dt(cur)) by {
            assert forall|i: int| 0 <= i < ps.len() implies self.valid(#[trigger] ps[i]) && d < self.sh(ps[i]).len()
                && self.sh(ps[i]).update(d as int, 0) == s.update(d as int, 0) && self.dt(ps[i]) == self.dt(cur) by {
                assert(self.sh(ps[i]).update(d as int, 0) =~= s.update(d as int, 0));
            }
        }
        assert(prefix_sum(axis_lens(*self, ps, d as int), ps.len() as int) == before + l + after) by {
            let al = axis_lens(*self, ps, d as int);
            if before > 0 && after > 0 {
                assert(al =~= seq![before, l, after]);
                assert(prefix_sum(al, 1) == before) by { assert(prefix_sum(al, 0) == 0); }
                assert(prefix_sum(al, 2) == before + l);
            } else if before > 0 {
                assert(al =~= seq![before, l]);
                assert(prefix_sum(al, 1) == before) by { assert(prefix_sum(al, 0) == 0); }
            } else {
                assert(al =~= seq![l, after]);
                assert(prefix_sum(al, 1) == l) by { assert(prefix_sum(al, 0) == 0); }
            }
        }
        let ghost gc = *self;
        let r = self.concat(parts.as_slice(), d);
        proof {
            if r is Ok {
                let id = r->Ok_0;
                let k = ps.len() as int;
                let lens = axis_lens(gc, ps, d as int);
                let lit = if before > 0 && after > 0 { seq![before, l, after] } else if before > 0 { seq![before, l] } else { seq![l, after] };
                assert(lens =~= lit);
                assert(joins(*self, id, ps, d as int, lens, (before + l + after) as int, k));
                if k == 3 {
                    assert(joins(*self, self.arg(id, 0), ps, d as int, lens, (before + l + after) as int, 2));
                    assert(joins(*self, self.arg(self.arg(id, 0), 0), ps, d as int, lens, (before + l + after) as int, 1));
                } else {
                    assert(joins(*self, self.arg(id, 0), ps, d as int, lens, (before + l + after) as int, 1));
                }
                assert(pad_parts(*self, id, before, after) =~= ps);
                let e0 = ps[0];
                let el = ps[k - 1];
                if before > 0 {
                    lemma_edge_kept(gc, *self, e0, cur, g00.sh(cur), d as int, l as int, before as int, true, mode);
                }
                if after > 0 {
                    lemma_edge_kept(gc, *self, el, cur, g00.sh(cur), d as int, l as int, after as int, false, mode);
                }
                assert(self.sh(ps[0]).update(d as int, (before + l + after) as usize) =~= s.update(d as int, (before + l + after) as usize));
            }
        }
        r
    }

    /// Pad `x` by `pads` (one `(before, after)` per axis) with `mode` one of `reflect`
    /// (mirror without the edge), `replicate` (repeat the edge) or `circular` (wrap around).
    #[verifier::loop_isolation(false)]
    pub fn pad_mode(&mut self, x: NodeId, pads: Vec<(usize, usize)>, mode: &str) -> (r: Result<NodeId, Error>)
        requires
            old(self).wf(), old(self).valid(x), old(self).room(10 * pads@.len()),
            crate::graph::ops::base::slicing::pad_fits(old(self).sh(x), pads@),
            pad_mode_of(mode@) == Some(PadMode::Replicate) && pads@.len() == old(self).sh(x).len() ==>
                forall|d: int| 0 <= d < pads@.len() && (#[trigger] pads@[d]).1 > 0 ==> old(self).sh(x)[d] >= 1,
        ensures
            final(self).wf(), final(self).grew(*old(self), 10 * pads@.len()),
            r is Ok <==> pads@.len() == old(self).sh(x).len() && pad_mode_of(mode@) is Some
                && pads_ok(pad_mode_of(mode@)->0, old(self).sh(x), pads@),
            r matches Ok(id) ==> final(self).valid(id) && final(self).dt(id) == old(self).dt(x)
                && final(self).sh(id) == mode_padded(old(self).sh(x), pads@),
            r matches Ok(id) ==> pads_upto(*final(self), id, x, old(self).sh(x), pads@, pad_mode_of(mode@)->0, pads@.len() as int),
    {
        let ghost g0 = *self;
        let rank = self.rank(x);
        if pads.len() != rank {
            return Err(Error::new("pad_mode", ErrorKind::Invalid));
        }
        let m = if str_eq(mode, "reflect") {
            PadMode::Reflect
        } else if str_eq(mode, "replicate") {
            PadMode::Replicate
        } else if str_eq(mode, "circular") {
            PadMode::Circular
        } else {
            return Err(Error::new("pad_mode", ErrorKind::Invalid));
        };
        assert(pad_mode_of(mode@) == Some(m));
        let ghost s0 = g0.sh(x);
        let mut cur = x;
        let mut d: usize = 0;
        while d < pads.len()
            invariant
                d <= pads@.len(), pads@.len() == s0.len(), self.wf(), self.grew(g0, 10 * d as nat),
                self.valid(cur), self.dt(cur) == g0.dt(x),
                self.sh(cur) == padded_upto(s0, pads@, d as int),
                pads_upto(*self, cur, x, s0, pads@, m, d as int),
                forall|k: int| 0 <= k < d ==> {
                    let p = #[trigger] pads@[k];
                    &&& p.0 > 0 ==> edge_ok(m, s0[k], p.0)
                    &&& p.1 > 0 ==> edge_ok(m, s0[k], p.1)
                },
            decreases pads@.len() - d,
        {
            let (before, after) = pads[d];
            if before == 0 && after == 0 {
                d = d + 1;
                assert(self.sh(cur) =~= padded_upto(s0, pads@, d as int));
                continue;
            }
            assert(self.sh(cur)[d as int] == s0[d as int]);
            assert(pads@[d as int].0 + s0[d as int] + pads@[d as int].1 <= usize::MAX);
            let ghost gp = *self;
            let ghost prev = cur;
            cur = match self.pad_axis(cur, d, before, after, m) {
                Ok(c) => c,
                Err(e) => {
                    assert(!pads_ok(m, s0, pads@));
                    return Err(e);
                },
            };
            proof {
                lemma_pads_upto_kept(gp, *self, prev, x, s0, pads@, m, d as int);
                assert(pad_input(*self, cur, before, after) == prev);
            }
            d = d + 1;
            assert(self.sh(cur) =~= padded_upto(s0, pads@, d as int));
        }
        assert(self.sh(cur) =~= mode_padded(s0, pads@));
        Ok(cur)
    }
}

} // verus!
