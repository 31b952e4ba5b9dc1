//! View-like movement: reshape/permute/expand primitives and the decompositions built on
//! them (transpose, flatten, squeeze/unsqueeze, broadcast).

use vstd::prelude::*;
use crate::error::{Error, ErrorKind};
use crate::graph::{Graph, NodeId, Op};
use crate::graph::infer::ins_of;
use crate::graph::shape::{numel, numel_checked, check_perm, is_perm, expand_ok, left_pad_ones, swap_perm, swap_dims, ones_vec, lemma_numel_insert_one, lemma_numel_concat, lemma_numel_ones};

verus! {

impl Graph {
    /// Reshape to `shape` (same element count).
    pub fn reshape(&mut self, a: NodeId, shape: Vec<usize>) -> (r: Result<NodeId, Error>)
        requires
            old(self).wf(), old(self).room(1), old(self).valid(a),
            numel(old(self).sh(a)) <= usize::MAX,
        ensures
            final(self).wf(),
            r is Ok <==> numel(old(self).sh(a)) == numel(shape@),
            r matches Ok(id) ==> final(self).pushed(*old(self), id, Op::Reshape { shape }, seq![a])
                && final(self).sh(id) == shape@ && final(self).dt(id) == old(self).dt(a),
            r matches Err(e) ==> *final(self) == *old(self) && e.kind == ErrorKind::Invalid,
    {
        let from = numel_checked(&self.nodes[a.0 as usize].shape);
        let to = numel_checked(&shape);
        let same = match (from, to) {
            (Some(x), Some(y)) => x == y,
            _ => false,
        };
        if !same {
            return Err(Error::new("reshape", ErrorKind::Invalid));
        }
        let v = vec![a];
        assert(v@ =~= seq![a]);
        assert(ins_of(self.nodes@, v@)[0].1 == self.dt(a));
        Ok(self.push(Op::Reshape { shape }, v))
    }

    /// Permute axes: output axis `i` is input axis `perm[i]`.
    pub fn permute(&mut self, a: NodeId, perm: Vec<usize>) -> (r: Result<NodeId, Error>)
        requires old(self).wf(), old(self).room(1), old(self).valid(a),
        ensures
            final(self).wf(),
            r is Ok <==> is_perm(perm@, old(self).sh(a).len()),
            r matches Ok(id) ==> final(self).pushed(*old(self), id, Op::Permute { perm }, seq![a])
                && final(self).sh(id) == perm@.map_values(|p: usize| old(self).sh(a)[p as int])
                && final(self).dt(id) == old(self).dt(a),
            r matches Err(e) ==> *final(self) == *old(self) && e.kind == ErrorKind::Invalid,
    {
        let rank = self.rank(a);
        if !check_perm(&perm, rank) {
            return Err(Error::new("permute", ErrorKind::Invalid));
        }
        let v = vec![a];
        assert(v@ =~= seq![a]);
        assert(ins_of(self.nodes@, v@)[0] == (self.sh(a), self.dt(a)));
        Ok(self.push(Op::Permute { perm }, v))
    }

    /// Broadcast size-1 dims of `a` to `shape`.
    #[verifier::loop_isolation(false)]
    pub fn expand(&mut self, a: NodeId, shape: Vec<usize>) -> (r: Result<NodeId, Error>)
        requires old(self).wf(), old(self).room(1), old(self).valid(a),
        ensures
            final(self).wf(),
            r is Ok <==> expand_ok(old(self).sh(a), shape@),
            r matches Ok(id) ==> final(self).pushed(*old(self), id, Op::Expand { shape }, seq![a])
                && final(self).sh(id) == shape@ && final(self).dt(id) == old(self).dt(a),
            r matches Err(e) ==> *final(self) == *old(self) && e.kind == ErrorKind::Invalid,
    {
        let from = &self.nodes[a.0 as usize].shape;
        assert(from@ == self.sh(a));
        if from.len() != shape.len() {
            return Err(Error::new("expand", ErrorKind::Invalid));
        }
        let mut i: usize = 0;
        while i < from.len()
            invariant
                from@.len() == shape@.len(),
                i <= from@.len(),
                forall|j: int| 0 <= j < i ==> #[trigger] from@[j] == shape@[j] || from@[j] == 1,
            decreases from@.len() - i,
        {
            if from[i] != shape[i] && from[i] != 1 {
                assert(!expand_ok(from@, shape@)) by {
                    assert(!(from@[i as int] == shape@[i as int] || from@[i as int] == 1));
                }
                return Err(Error::new("expand", ErrorKind::Invalid));
            }
            i = i + 1;
        }
        let v = vec![a];
        assert(v@ =~= seq![a]);
        assert(ins_of(self.nodes@, v@)[0].1 == self.dt(a));
        Ok(self.push(Op::Expand { shape }, v))
    }

    /// Swap axes `i` and `j`.
    pub fn transpose(&mut self, x: NodeId, i: usize, j: usize) -> (r: Result<NodeId, Error>)
        requires
            old(self).wf(), old(self).room(1), old(self).valid(x),
            i < old(self).sh(x).len(), j < old(self).sh(x).len(),
        ensures
            final(self).wf(),
            r is Ok,
            r matches Ok(id) ==> final(self).pushed(*old(self), id, Op::Permute { perm: final(self).opn(id)->perm }, seq![x])
                && final(self).opn(id)->perm@ == swap_perm(old(self).sh(x).len(), i as int, j as int)
                && final(self).sh(id) == swap_dims(old(self).sh(x), i as int, j as int)
                && final(self).dt(id) == old(self).dt(x),
    {
        let rank = self.rank(x);
        let mut perm: Vec<usize> = Vec::new();
        let mut k: usize = 0;
        while k < rank
            invariant
                k <= rank,
                i < rank, j < rank,
                perm@ == swap_perm(k as nat, i as int, j as int),
            decreases rank - k,
        {
            let v = if k == i { j } else if k == j { i } else { k };
            perm.push(v);
            k = k + 1;
            assert(perm@ =~= swap_perm(k as nat, i as int, j as int));
        }
        let ghost p = perm@;
        let ghost s = self.sh(x);
        assert(is_perm(p, rank as nat)) by {
            assert forall|a: int, b: int| 0 <= a < p.len() && 0 <= b < p.len() && a != b implies p[a] != p[b] by {}
        }
        let r = self.permute(x, perm);
        assert(p.map_values(|q: usize| s[q as int]) =~= swap_dims(s, i as int, j as int));
        r
    }

    /// Transpose the last two axes.
    pub fn t(&mut self, x: NodeId) -> (r: Result<NodeId, Error>)
        requires
            old(self).wf(), old(self).room(1), old(self).valid(x),
            old(self).sh(x).len() >= 2,
        ensures
            final(self).wf(),
            final(self).grew(*old(self), 1),
            r matches Ok(id) && final(self).valid(id)
                && final(self).sh(id) == swap_dims(old(self).sh(x), old(self).sh(x).len() - 2, old(self).sh(x).len() - 1)
                && final(self).dt(id) == old(self).dt(x),
            r matches Ok(id) ==> final(self).srcs(id) == seq![x]
                && (final(self).opn(id) matches Op::Permute { perm }
                && perm@ == swap_perm(old(self).sh(x).len(), old(self).sh(x).len() - 2, old(self).sh(x).len() - 1)),
    {
        let rank = self.rank(x);
        self.transpose(x, rank - 2, rank - 1)
    }

    /// Flatten to 1-D.
    pub fn flatten(&mut self, x: NodeId) -> (r: Result<NodeId, Error>)
        requires
            old(self).wf(), old(self).room(1), old(self).valid(x),
            numel(old(self).sh(x)) <= usize::MAX,
        ensures
            final(self).wf(),
            final(self).grew(*old(self), 1),
            r matches Ok(id) && final(self).valid(id)
                && final(self).sh(id) == seq![numel(old(self).sh(x)) as usize]
                && final(self).dt(id) == old(self).dt(x),
            r matches Ok(id) ==> final(self).srcs(id) == seq![x]
                && (final(self).opn(id) matches Op::Reshape { shape } && shape@ == seq![numel(old(self).sh(x)) as usize]),
    {
        let n = match numel_checked(&self.nodes[x.0 as usize].shape) {
            Some(n) => n,
            None => { assert(false); 0 },
        };
        let v = vec![n];
        proof {
            assert(v@ =~= seq![n]);
            assert(seq![n].drop_last() =~= Seq::<usize>::empty());
            assert(numel(v@) == numel(Seq::<usize>::empty()) * n);
        }
        self.reshape(x, v)
    }

    /// Remove `axis` if it has size 1 (else keep the shape).
    pub fn squeeze(&mut self, x: NodeId, axis: usize) -> (r: Result<NodeId, Error>)
        requires
            old(self).wf(), old(self).room(1), old(self).valid(x),
            axis < old(self).sh(x).len(),
            numel(old(self).sh(x)) <= usize::MAX,
        ensures
            final(self).wf(),
            final(self).grew(*old(self), 1),
            r matches Ok(id) && final(self).valid(id)
                && final(self).sh(id) == (if old(self).sh(x)[axis as int] == 1 { old(self).sh(x).remove(axis as int) }
                    else { old(self).sh(x) })
                && final(self).dt(id) == old(self).dt(x),
            r matches Ok(id) ==> final(self).opn(id) is Reshape && final(self).srcs(id) == seq![x],
    {
        let mut s = self.shape(x);
        if s[axis] == 1 {
            s.remove(axis);
            proof {
                lemma_numel_insert_one(s@, axis as int);
                assert(s@.insert(axis as int, 1) =~= self.sh(x));
            }
        }
        self.reshape(x, s)
    }

    /// Insert a size-1 axis at `axis`.
    pub fn unsqueeze(&mut self, x: NodeId, axis: usize) -> (r: Result<NodeId, Error>)
        requires
            old(self).wf(), old(self).room(1), old(self).valid(x),
            axis <= old(self).sh(x).len(),
            numel(old(self).sh(x)) <= usize::MAX,
        ensures
            final(self).wf(),
            final(self).grew(*old(self), 1),
            r matches Ok(id) && final(self).valid(id)
                && final(self).sh(id) == old(self).sh(x).insert(axis as int, 1)
                && final(self).dt(id) == old(self).dt(x),
            r matches Ok(id) ==> final(self).srcs(id) == seq![x]
                && (final(self).opn(id) matches Op::Reshape { shape } && shape@ == old(self).sh(x).insert(axis as int, 1)),
    {
        let mut s = self.shape(x);
        s.insert(axis, 1);
        proof { lemma_numel_insert_one(self.sh(x), axis as int); }
        self.reshape(x, s)
    }

    /// Broadcast to `shape` (NumPy rules): prepend size-1 axes, then expand.
    pub fn broadcast_to(&mut self, x: NodeId, shape: Vec<usize>) -> (r: Result<NodeId, Error>)
        requires
            old(self).wf(), old(self).room(2), old(self).valid(x),
            numel(old(self).sh(x)) <= usize::MAX,
        ensures
            final(self).wf(),
            final(self).grew(*old(self), 2),
            r is Ok <==> expand_ok(left_pad_ones(old(self).sh(x), shape@.len()), shape@),
            r matches Ok(id) ==> final(self).valid(id) && final(self).sh(id) == shape@
                && final(self).dt(id) == old(self).dt(x),
            r matches Ok(id) ==> final(self).opn(id) is Expand && final(self).srcs(id).len() == 1
                && (final(self).arg(id, 0) == x
                    || (final(self).opn(final(self).arg(id, 0)) is Reshape && final(self).srcs(final(self).arg(id, 0)) == seq![x])),
            r matches Ok(id) ==> (old(self).sh(x).len() < shape@.len() ==>
                    final(self).opn(final(self).arg(id, 0)) is Reshape && final(self).srcs(final(self).arg(id, 0)) == seq![x])
                && (old(self).sh(x).len() >= shape@.len() ==> final(self).arg(id, 0) == x),
    {
        let xs = self.shape(x);
        let x2 = if xs.len() < shape.len() {
            let mut s = ones_vec(shape.len() - xs.len());
            let ghost pre = s@;
            let mut k: usize = 0;
            while k < xs.len()
                invariant
                    k <= xs@.len(),
                    s@ == pre + xs@.take(k as int),
                decreases xs@.len() - k,
            {
                s.push(xs[k]);
                k = k + 1;
                assert(s@ =~= pre + xs@.take(k as int));
            }
            proof {
                assert(xs@.take(xs@.len() as int) =~= xs@);
                lemma_numel_concat(pre, xs@);
                lemma_numel_ones(pre.len());
                assert(s@ =~= left_pad_ones(xs@, shape@.len()));
            }
            match self.reshape(x, s) {
                Ok(id) => id,
                Err(_) => { assert(false); x },
            }
        } else {
            x
        };
        self.expand(x2, shape)
    }

    /// Broadcast `x` to `other`'s shape.
    pub fn broadcast_like(&mut self, x: NodeId, other: NodeId) -> (r: Result<NodeId, Error>)
        requires
            old(self).wf(), old(self).room(2), old(self).valid(x), old(self).valid(other),
            numel(old(self).sh(x)) <= usize::MAX,
        ensures
            final(self).wf(),
            final(self).grew(*old(self), 2),
            r is Ok <==> expand_ok(left_pad_ones(old(self).sh(x), old(self).sh(other).len()), old(self).sh(other)),
            r matches Ok(id) ==> final(self).valid(id) && final(self).sh(id) == old(self).sh(other)
                && final(self).dt(id) == old(self).dt(x),
            r matches Ok(id) ==> final(self).opn(id) is Expand && final(self).srcs(id).len() == 1
                && (final(self).arg(id, 0) == x
                    || (final(self).opn(final(self).arg(id, 0)) is Reshape && final(self).srcs(final(self).arg(id, 0)) == seq![x])),
    {
        let shape = self.shape(other);
        self.broadcast_to(x, shape)
    }
}

} // verus!
