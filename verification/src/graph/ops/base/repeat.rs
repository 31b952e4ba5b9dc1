//! Repetition: tiling an axis, repeating each of its elements, and circular shifts.

use vstd::prelude::*;
use crate::error::Error;
use crate::graph::{Graph, NodeId, Op};
use crate::graph::shape::{numel, expand_ok, lemma_numel_insert, lemma_numel_scale};
use crate::graph::ops::base::scalar::ok_id;
use crate::graph::ops::base::join::{axis_lens, concat_ok, prefix_sum, joins, lemma_joins_kept};
use crate::graph::ops::base::signal::axis_window;

verus! {

/// Node `id` of `g` is `x` (shape `s`) rolled by `shift` along `axis` (length `l`): `x`
/// itself when `shift` is a multiple of `l`, otherwise its last `shift % l` slices joined
/// ahead of the others.
pub open spec fn is_roll_of(g: Graph, id: NodeId, x: NodeId, s: Seq<usize>, shift: usize, axis: usize) -> bool {
    let l = s[axis as int];
    let k = shift % l;
    let a = g.arg(g.arg(id, 0), 0);
    let b = g.arg(g.arg(id, 1), 0);
    if k == 0 {
        id == x
    } else {
        &&& joins(g, id, seq![a, b], axis as int, seq![k, (l - k) as usize], l as int, 2)
        &&& g.srcs(a) == seq![x] && (g.opn(a) matches Op::Slice { ranges }
            && ranges@ == axis_window(s, axis as int, (l - k) as usize, l).map_values(|q: (usize, usize)| (q.0, q.1, 1usize)))
        &&& g.srcs(b) == seq![x] && (g.opn(b) matches Op::Slice { ranges }
            && ranges@ == axis_window(s, axis as int, 0, (l - k) as usize).map_values(|q: (usize, usize)| (q.0, q.1, 1usize)))
    }
}

/// A roll stays one as the graph grows.
pub proof fn lemma_roll_kept(g0: Graph, g1: Graph, id: NodeId, x: NodeId, s: Seq<usize>, shift: usize, axis: usize)
    requires g0.wf(), is_roll_of(g0, id, x, s, shift, axis), g1.extends(g0), s[axis as int] >= 1,
    ensures is_roll_of(g1, id, x, s, shift, axis),
{
    let l = s[axis as int];
    let k = shift % l;
    if k != 0 {
        let p = g0.arg(id, 0);
        let q = g0.arg(id, 1);
        let a = g0.arg(p, 0);
        let b = g0.arg(q, 0);
        let lens = seq![k, (l - k) as usize];
        let parts = seq![a, b];
        assert(joins(g0, p, parts, axis as int, lens, l as int, 1));
        g0.lemma_arg_kept(g1, id, 0);
        g0.lemma_arg_kept(g1, id, 1);
        g0.lemma_arg_kept(g1, p, 0);
        g0.lemma_arg_kept(g1, q, 0);
        assert forall|j: int| 0 <= j < parts.len() implies g0.valid(#[trigger] parts[j]) by {}
        lemma_joins_kept(g0, g1, id, parts, axis as int, lens, l as int, 2);
    }
}

impl Graph {
    /// Repeat `x` `n` times along `axis`: `[a, b, c]` to `[a, b, c, a, b, c]`.
    pub fn tile(&mut self, x: NodeId, axis: usize, n: usize) -> (r: Result<NodeId, Error>)
        requires
            old(self).wf(), old(self).room(3), old(self).valid(x), axis < old(self).sh(x).len(),
            numel(old(self).sh(x)) <= usize::MAX, numel(old(self).sh(x)) * n <= usize::MAX,
            old(self).sh(x)[axis as int] * n <= usize::MAX,
        ensures
            final(self).wf(), final(self).grew(*old(self), 3),
            r matches Ok(id) && final(self).valid(id) && final(self).dt(id) == old(self).dt(x)
                && final(self).sh(id) == old(self).sh(x).update(axis as int, (old(self).sh(x)[axis as int] * n) as usize),
            r matches Ok(id) ==> ({
                let g = *final(self);
                let sh = old(self).sh(x);
                let e = g.arg(id, 0);
                let r1 = g.arg(e, 0);
                &&& g.srcs(id) == seq![e] && (g.opn(id) matches Op::Reshape { shape }
                    && shape@ == sh.update(axis as int, (sh[axis as int] * n) as usize))
                &&& g.srcs(e) == seq![r1] && (g.opn(e) matches Op::Expand { shape } && shape@ == sh.insert(axis as int, n))
                &&& g.srcs(r1) == seq![x] && (g.opn(r1) matches Op::Reshape { shape } && shape@ == sh.insert(axis as int, 1))
            }),
    {
        let sh = self.shape(x);
        let l = sh[axis];
        let mut s1 = self.shape(x);
        s1.insert(axis, 1);
        let ghost v1 = s1@;
        proof {
            lemma_numel_insert(sh@, axis as int, 1);
            lemma_numel_insert(sh@, axis as int, n);
            lemma_numel_scale(sh@, axis as int, n);
        }
        let r = ok_id(self.reshape(x, s1));
        let mut s2 = self.shape(r);
        s2.set(axis, n);
        assert(expand_ok(v1, s2@));
        let e = ok_id(self.expand(r, s2));
        assert(self.sh(e) =~= sh@.insert(axis as int, n));
        let mut s3 = self.shape(x);
        s3.set(axis, l * n);
        Ok(ok_id(self.reshape(e, s3)))
    }

    /// Repeat each element of `axis` `n` times: `[a, b, c]` to `[a, a, b, b, c, c]`.
    pub fn repeat_interleave(&mut self, x: NodeId, axis: usize, n: usize) -> (r: Result<NodeId, Error>)
        requires
            old(self).wf(), old(self).room(3), old(self).valid(x), axis < old(self).sh(x).len(),
            numel(old(self).sh(x)) <= usize::MAX, numel(old(self).sh(x)) * n <= usize::MAX,
            old(self).sh(x)[axis as int] * n <= usize::MAX,
        ensures
            final(self).wf(), final(self).grew(*old(self), 3),
            r matches Ok(id) && final(self).valid(id) && final(self).dt(id) == old(self).dt(x)
                && final(self).sh(id) == old(self).sh(x).update(axis as int, (old(self).sh(x)[axis as int] * n) as usize),
            r matches Ok(id) ==> ({
                let g = *final(self);
                let sh = old(self).sh(x);
                let e = g.arg(id, 0);
                let r1 = g.arg(e, 0);
                &&& g.srcs(id) == seq![e] && (g.opn(id) matches Op::Reshape { shape }
                    && shape@ == sh.update(axis as int, (sh[axis as int] * n) as usize))
                &&& g.srcs(e) == seq![r1] && (g.opn(e) matches Op::Expand { shape } && shape@ == sh.insert(axis + 1, n))
                &&& g.srcs(r1) == seq![x] && (g.opn(r1) matches Op::Reshape { shape } && shape@ == sh.insert(axis + 1, 1))
            }),
    {
        let sh = self.shape(x);
        let l = sh[axis];
        let mut s1 = self.shape(x);
        let s1n = s1.len();
        assert(axis < s1n);
        let a1 = axis + 1;
        s1.insert(a1, 1);
        let ghost v1 = s1@;
        proof {
            lemma_numel_insert(sh@, axis + 1, 1);
            lemma_numel_insert(sh@, axis + 1, n);
            lemma_numel_scale(sh@, axis as int, n);
        }
        let r = ok_id(self.reshape(x, s1));
        let mut s2 = self.shape(r);
        s2.set(axis + 1, n);
        assert(expand_ok(v1, s2@));
        let e = ok_id(self.expand(r, s2));
        assert(self.sh(e) =~= sh@.insert(axis + 1, n));
        let mut s3 = self.shape(x);
        s3.set(axis, l * n);
        Ok(ok_id(self.reshape(e, s3)))
    }

    /// Circular shift along `axis` by `shift`: `concat(x[L-s..], x[..L-s])`, `s = shift mod L`.
    pub fn roll(&mut self, x: NodeId, shift: usize, axis: usize) -> (r: Result<NodeId, Error>)
        requires
            old(self).wf(), old(self).room(6), old(self).valid(x), axis < old(self).sh(x).len(),
            old(self).sh(x)[axis as int] >= 1,
        ensures
            final(self).wf(), final(self).grew(*old(self), 6),
            r is Ok,
            r matches Ok(id) ==> final(self).valid(id) && final(self).dt(id) == old(self).dt(x)
                && final(self).sh(id) == old(self).sh(x),
            r matches Ok(id) ==> is_roll_of(*final(self), id, x, old(self).sh(x), shift, axis),
            shift % old(self).sh(x)[axis as int] == 0 ==> *final(self) == *old(self),
    {
        let sh = self.shape(x);
        let l = sh[axis];
        let s = shift % l;
        if s == 0 {
            return Ok(x);
        }
        let ra = crate::graph::ops::base::signal::axis_ranges(&sh, axis, l - s, l);
        let rb = crate::graph::ops::base::signal::axis_ranges(&sh, axis, 0, l - s);
        proof {
            assert forall|d: int| 0 <= d < ra@.len() implies (#[trigger] ra@[d]).0 <= ra@[d].1 <= sh@[d] by {}
            assert forall|d: int| 0 <= d < rb@.len() implies (#[trigger] rb@[d]).0 <= rb@[d].1 <= sh@[d] by {}
            assert(ra@.map_values(|q: (usize, usize)| (q.1 - q.0) as usize) =~= sh@.update(axis as int, s));
            assert(rb@.map_values(|q: (usize, usize)| (q.1 - q.0) as usize) =~= sh@.update(axis as int, (l - s) as usize));
        }
        let a = ok_id(self.slice(x, ra));
        let b = ok_id(self.slice(x, rb));
        let parts: Vec<NodeId> = vec![a, b];
        let ghost ps = parts@;
        assert(ps =~= seq![a, b]);
        assert(axis_lens(*self, ps, axis as int) =~= seq![s, (l - s) as usize]);
        assert(prefix_sum(seq![s, (l - s) as usize], 2) == l) by {
            assert(prefix_sum(seq![s, (l - s) as usize], 1) == s) by {
                assert(prefix_sum(seq![s, (l - s) as usize], 0) == 0);
            }
        }
        proof {
            assert(self.sh(b).update(axis as int, 0) =~= self.sh(a).update(axis as int, 0));
            assert(concat_ok(*self, ps, axis as int));
        }
        let ghost g1 = *self;
        let r = self.concat(parts.as_slice(), axis);
        proof {
            if r is Ok {
                assert(self.sh(a).update(axis as int, l) =~= sh@);
                assert(self.nodes@[a.0 as int] == g1.nodes@[a.0 as int]);
                assert(self.nodes@[b.0 as int] == g1.nodes@[b.0 as int]);
                let id = r->Ok_0;
                assert(axis_lens(g1, ps, axis as int) =~= seq![s, (l - s) as usize]);
                let lens = axis_lens(g1, ps, axis as int);
                assert(joins(*self, id, ps, axis as int, lens, l as int, 2));
                assert(joins(*self, self.arg(id, 0), ps, axis as int, lens, l as int, 1));
                assert(ps[0] == a && ps[1] == b);
                assert(self.arg(self.arg(id, 0), 0) == a);
                assert(self.arg(self.arg(id, 1), 0) == b);
            }
        }
        r
    }
}

} // verus!
