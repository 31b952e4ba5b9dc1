//! Slicing, flipping and zero padding.

use vstd::prelude::*;
use crate::error::{Error, ErrorKind};
use crate::graph::{Graph, NodeId, Op};
use crate::graph::infer::{ins_of, ceil_div};

verus! {

/// One in-bounds `[start, end)` range with a positive step per axis of `s`.
pub open spec fn slice_ok(s: Seq<usize>, ranges: Seq<(usize, usize, usize)>) -> bool {
    &&& ranges.len() == s.len()
    &&& forall|d: int| 0 <= d < ranges.len() ==> (#[trigger] ranges[d]).2 > 0 && ranges[d].0 <= ranges[d].1 <= s[d]
}

/// The shape a slice by `ranges` has: `ceil((end - start) / step)` per axis.
pub open spec fn sliced(ranges: Seq<(usize, usize, usize)>) -> Seq<usize> {
    ranges.map_values(|r: (usize, usize, usize)| ceil_div(r.1 - r.0, r.2 as int) as usize)
}

/// `axes` are in range for rank `n` and pairwise distinct.
pub open spec fn axes_ok(axes: Seq<usize>, n: nat) -> bool {
    forall|k: int| 0 <= k < axes.len() ==> (#[trigger] axes[k]) < n && forall|j: int| 0 <= j < k ==> axes[j] != axes[k]
}

/// Padding `pads` around shape `s` stays within `usize`.
pub open spec fn pad_fits(s: Seq<usize>, pads: Seq<(usize, usize)>) -> bool {
    forall|d: int| 0 <= d < pads.len() && d < s.len() ==> (#[trigger] pads[d]).0 + s[d] + pads[d].1 <= usize::MAX
}

/// The shape `s` has once padded by `pads`.
pub open spec fn padded(s: Seq<usize>, pads: Seq<(usize, usize)>) -> Seq<usize> {
    Seq::new(s.len(), |d: int| (pads[d].0 + s[d] + pads[d].1) as usize)
}

impl Graph {
    /// Strided slice: per axis `(start, end, step)` with `step >= 1`, `start <= end <= dim`.
    #[verifier::loop_isolation(false)]
    pub fn slice_step(&mut self, a: NodeId, ranges: Vec<(usize, usize, usize)>) -> (r: Result<NodeId, Error>)
        requires old(self).wf(), old(self).room(1), old(self).valid(a),
        ensures
            final(self).wf(),
            r is Ok <==> slice_ok(old(self).sh(a), ranges@),
            r matches Ok(id) ==> final(self).pushed(*old(self), id, Op::Slice { ranges }, seq![a])
                && final(self).sh(id) == sliced(ranges@) && final(self).dt(id) == old(self).dt(a),
            r matches Err(e) ==> *final(self) == *old(self) && e.kind == ErrorKind::Invalid,
    {
        let s = &self.nodes[a.0 as usize].shape;
        if ranges.len() != s.len() {
            return Err(Error::new("slice", ErrorKind::Invalid));
        }
        let mut d: usize = 0;
        while d < ranges.len()
            invariant
                d <= ranges@.len(), ranges@.len() == s@.len(), s@ == self.sh(a),
                forall|k: int| 0 <= k < d ==> (#[trigger] ranges@[k]).2 > 0 && ranges@[k].0 <= ranges@[k].1 <= s@[k],
            decreases ranges@.len() - d,
        {
            let (start, end, step) = ranges[d];
            if step == 0 || start > end || end > s[d] {
                proof {
                    let dd = d as int;
                    assert(!((ranges@[dd]).2 > 0 && ranges@[dd].0 <= ranges@[dd].1 <= s@[dd]));
                }
                return Err(Error::new("slice", ErrorKind::Invalid));
            }
            d = d + 1;
        }
        let v = vec![a];
        assert(v@ =~= seq![a]);
        assert(ins_of(self.nodes@, v@)[0] == (self.sh(a), self.dt(a)));
        Ok(self.push(Op::Slice { ranges }, v))
    }

    /// Unit-step slice: per axis `[start, end)` with `start <= end <= dim`.
    pub fn slice(&mut self, a: NodeId, ranges: Vec<(usize, usize)>) -> (r: Result<NodeId, Error>)
        requires old(self).wf(), old(self).room(1), old(self).valid(a),
        ensures
            final(self).wf(),
            r is Ok <==> ranges@.len() == old(self).sh(a).len()
                && forall|d: int| 0 <= d < ranges@.len() ==> (#[trigger] ranges@[d]).0 <= ranges@[d].1 <= old(self).sh(a)[d],
            r matches Ok(id) ==> final(self).valid(id) && final(self).grew(*old(self), 1)
                && final(self).sh(id) == ranges@.map_values(|r: (usize, usize)| (r.1 - r.0) as usize)
                && final(self).dt(id) == old(self).dt(a),
            r is Err ==> *final(self) == *old(self),
            r matches Ok(id) ==> final(self).srcs(id) == seq![a]
                && (final(self).opn(id) matches Op::Slice { ranges: rs }
                && rs@ == ranges@.map_values(|q: (usize, usize)| (q.0, q.1, 1usize))),
    {
        let mut stepped: Vec<(usize, usize, usize)> = Vec::new();
        let mut k: usize = 0;
        while k < ranges.len()
            invariant
                k <= ranges@.len(),
                stepped@ == ranges@.take(k as int).map_values(|r: (usize, usize)| (r.0, r.1, 1usize)),
            decreases ranges@.len() - k,
        {
            let (s, e) = ranges[k];
            stepped.push((s, e, 1));
            k = k + 1;
            assert(stepped@ =~= ranges@.take(k as int).map_values(|r: (usize, usize)| (r.0, r.1, 1usize)));
        }
        assert(ranges@.take(ranges@.len() as int) =~= ranges@);
        let ghost st = stepped@;
        let r = self.slice_step(a, stepped);
        proof {
            if r is Ok {
                assert(sliced(st) =~= ranges@.map_values(|r: (usize, usize)| (r.1 - r.0) as usize));
            }
            if slice_ok(old(self).sh(a), st) {
                assert forall|d: int| 0 <= d < ranges@.len() implies (#[trigger] ranges@[d]).0 <= ranges@[d].1 <= old(self).sh(a)[d] by {
                    assert(st[d].0 == ranges@[d].0 && st[d].1 == ranges@[d].1);
                }
            }
            if ranges@.len() == old(self).sh(a).len()
                && forall|d: int| 0 <= d < ranges@.len() ==> (#[trigger] ranges@[d]).0 <= ranges@[d].1 <= old(self).sh(a)[d] {
                assert forall|d: int| 0 <= d < st.len() implies (#[trigger] st[d]).2 > 0 && st[d].0 <= st[d].1 <= old(self).sh(a)[d] by {
                    assert(ranges@[d].0 <= ranges@[d].1 <= old(self).sh(a)[d]);
                }
            }
        }
        r
    }

    /// Reverse the listed axes (each in range, none repeated).
    #[verifier::loop_isolation(false)]
    pub fn flip(&mut self, a: NodeId, axes: Vec<usize>) -> (r: Result<NodeId, Error>)
        requires old(self).wf(), old(self).room(1), old(self).valid(a),
        ensures
            final(self).wf(),
            r is Ok <==> axes_ok(axes@, old(self).sh(a).len()),
            r matches Ok(id) ==> final(self).pushed(*old(self), id, Op::Flip { axes }, seq![a])
                && final(self).sh(id) == old(self).sh(a) && final(self).dt(id) == old(self).dt(a),
            r matches Err(e) ==> *final(self) == *old(self),
    {
        let rank = self.rank(a);
        let mut k: usize = 0;
        while k < axes.len()
            invariant
                k <= axes@.len(), rank == self.sh(a).len(),
                forall|t: int| 0 <= t < k ==> (#[trigger] axes@[t]) < rank && forall|j: int| 0 <= j < t ==> axes@[j] != axes@[t],
            decreases axes@.len() - k,
        {
            let ax = axes[k];
            if ax >= rank {
                proof { assert(!(axes@[k as int] < rank)); }
                return Err(Error::new("flip", ErrorKind::AxisOutOfRange { axis: ax, rank }));
            }
            let mut j: usize = 0;
            while j < k
                invariant j <= k, k < axes@.len(), ax == axes@[k as int], forall|i: int| 0 <= i < j ==> axes@[i] != ax,
                decreases k - j,
            {
                if axes[j] == ax {
                    proof {
                        let kk = k as int;
                        let jj = j as int;
                        assert(axes@[jj] == axes@[kk]);
                        assert(!(forall|i: int| 0 <= i < kk ==> axes@[i] != axes@[kk]));
                    }
                    return Err(Error::new("flip", ErrorKind::Invalid));
                }
                j = j + 1;
            }
            k = k + 1;
        }
        let v = vec![a];
        assert(v@ =~= seq![a]);
        assert(ins_of(self.nodes@, v@)[0] == (self.sh(a), self.dt(a)));
        Ok(self.push(Op::Flip { axes }, v))
    }

    /// Zero padding `(before, after)` per axis.
    pub fn pad(&mut self, a: NodeId, pads: Vec<(usize, usize)>) -> (r: Result<NodeId, Error>)
        requires old(self).wf(), old(self).room(1), old(self).valid(a), pad_fits(old(self).sh(a), pads@),
        ensures
            final(self).wf(),
            r is Ok <==> pads@.len() == old(self).sh(a).len(),
            r matches Ok(id) ==> final(self).pushed(*old(self), id, Op::Pad { pads }, seq![a])
                && final(self).sh(id) == padded(old(self).sh(a), pads@) && final(self).dt(id) == old(self).dt(a),
            r matches Err(e) ==> *final(self) == *old(self) && e.kind == ErrorKind::Invalid,
    {
        if pads.len() != self.rank(a) {
            return Err(Error::new("pad", ErrorKind::Invalid));
        }
        let v = vec![a];
        assert(v@ =~= seq![a]);
        assert(ins_of(self.nodes@, v@)[0] == (self.sh(a), self.dt(a)));
        let ghost p = pads@;
        let id = self.push(Op::Pad { pads }, v);
        assert(self.sh(id) =~= padded(old(self).sh(a), p));
        Ok(id)
    }
}

} // verus!

verus! {

/// Whether `axes` are in range for `rank` and pairwise distinct.
pub fn check_axes(axes: &Vec<usize>, rank: usize) -> (b: bool)
    ensures b == axes_ok(axes@, rank as nat),
{
    let mut k: usize = 0;
    while k < axes.len()
        invariant
            k <= axes@.len(),
            forall|t: int| 0 <= t < k ==> (#[trigger] axes@[t]) < rank && forall|j: int| 0 <= j < t ==> axes@[j] != axes@[t],
        decreases axes@.len() - k,
    {
        let ax = axes[k];
        if ax >= rank {
            proof { assert(!(axes@[k as int] < rank)); }
            return false;
        }
        let mut j: usize = 0;
        while j < k
            invariant j <= k, k < axes@.len(), ax == axes@[k as int], forall|i: int| 0 <= i < j ==> axes@[i] != ax,
            decreases k - j,
        {
            if axes[j] == ax {
                proof {
                    let kk = k as int;
                    assert(axes@[j as int] == axes@[kk]);
                    assert(!(forall|i: int| 0 <= i < kk ==> axes@[i] != axes@[kk]));
                }
                return false;
            }
            j = j + 1;
        }
        k = k + 1;
    }
    true
}

} // verus!
