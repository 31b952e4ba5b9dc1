//! Index-space ops: iota, gather/scatter along one axis, argsort and the compositions on
//! top of them (take_along_dim, sort, topk, onehot).

use vstd::prelude::*;
use crate::dtype::DType;
use crate::error::{Error, ErrorKind};
use crate::graph::{Graph, NodeId, Op, ScatterOp};
use crate::graph::infer::ins_of;
use crate::graph::shape::{numel, lemma_numel_concat, lemma_numel_single, expand_ok};
use crate::graph::check::shapes_equal;
use crate::graph::ops::base::scalar::ok_id;
use crate::graph::ops::base::join::is_piece;

verus! {

/// Node `id` of `g` is `idx` (shape `s`) as I64 with a trailing size-1 axis, broadcast over
/// `n` classes: an expand of a reshape of `idx`, with a cast to I64 between them unless `idx`
/// already is I64.
pub open spec fn is_onehot_index(g: Graph, id: NodeId, idx: NodeId, s: Seq<usize>, n: usize) -> bool {
    let ir = g.arg(id, 0);
    let rs = if g.opn(ir) is Cast { g.arg(ir, 0) } else { ir };
    &&& g.srcs(id).len() == 1
    &&& g.opn(id) matches Op::Expand { shape } && shape@ == s.push(n)
    &&& g.opn(ir) is Cast ==> g.opn(ir) == (Op::Cast { to: DType::I64 }) && g.srcs(ir).len() == 1
    &&& g.srcs(rs) == seq![idx]
    &&& g.opn(rs) matches Op::Reshape { shape } && shape@ == s.push(1)
}

/// Node `id` of `g` is the one-hot encoding of `idx` (shape `s`) over `n` classes: the F32
/// cast of the comparison of the class number along a new last axis with `idx`.
pub open spec fn is_onehot_of(g: Graph, id: NodeId, idx: NodeId, s: Seq<usize>, n: usize) -> bool {
    let eq = g.arg(id, 0);
    &&& g.opn(id) == (Op::Cast { to: DType::F32 }) && g.srcs(id).len() == 1
    &&& g.opn(eq) == Op::CmpEq && g.srcs(eq).len() == 2
    &&& g.opn(g.arg(eq, 0)) matches Op::Iota { shape, axis, dtype }
        && shape@ == s.push(n) && axis == s.len() && dtype == DType::I64
    &&& is_onehot_index(g, g.arg(eq, 1), idx, s, n)
}

/// The shape of gathering `idx`-shaped indices along `axis` of `s`.
pub open spec fn gathered(s: Seq<usize>, idx: Seq<usize>, axis: usize) -> Seq<usize> {
    s.take(axis as int) + idx + s.skip(axis + 1)
}

/// `idx` matches `s` on every axis but `axis`.
pub open spec fn along_ok(s: Seq<usize>, idx: Seq<usize>, axis: usize) -> bool {
    idx.len() == s.len() && forall|d: int| 0 <= d < s.len() && d != axis ==> #[trigger] idx[d] == s[d]
}

impl Graph {
    /// `Iota`: the index along `axis`, broadcast over `shape`.
    pub fn iota(&mut self, shape: Vec<usize>, axis: usize, dtype: DType) -> (r: Result<NodeId, Error>)
        requires old(self).wf(), old(self).room(1),
        ensures
            final(self).wf(),
            r is Ok <==> axis < shape@.len(),
            r matches Ok(id) ==> final(self).pushed(*old(self), id, Op::Iota { shape, axis, dtype }, seq![])
                && final(self).sh(id) == shape@ && final(self).dt(id) == dtype,
            r matches Err(e) ==> *final(self) == *old(self)
                && e.kind == (ErrorKind::AxisOutOfRange { axis, rank: shape@.len() as usize }),
    {
        if axis >= shape.len() {
            return Err(Error::new("iota", ErrorKind::AxisOutOfRange { axis, rank: shape.len() }));
        }
        Ok(self.push(Op::Iota { shape, axis, dtype }, vec![]))
    }

    /// `Gather` along `axis`: `indices`' shape replaces that axis (integer indices).
    pub fn gather(&mut self, operand: NodeId, indices: NodeId, axis: usize) -> (r: Result<NodeId, Error>)
        requires old(self).wf(), old(self).room(1), old(self).valid(operand), old(self).valid(indices),
        ensures
            final(self).wf(),
            r is Ok <==> axis < old(self).sh(operand).len() && old(self).dt(indices).spec_is_int(),
            r matches Ok(id) ==> final(self).pushed(*old(self), id, Op::Gather { axis }, seq![operand, indices])
                && final(self).sh(id) == gathered(old(self).sh(operand), old(self).sh(indices), axis)
                && final(self).dt(id) == old(self).dt(operand),
            r is Err ==> *final(self) == *old(self),
    {
        self.reduce_axis_ok("gather", operand, axis)?;
        self.require("gather", indices, self.dtype(indices).is_int())?;
        let v = vec![operand, indices];
        assert(v@ =~= seq![operand, indices]);
        assert(ins_of(self.nodes@, v@)[0] == (self.sh(operand), self.dt(operand)));
        assert(ins_of(self.nodes@, v@)[1] == (self.sh(indices), self.dt(indices)));
        Ok(self.push(Op::Gather { axis }, v))
    }

    /// `Scatter` along `axis`: `updates` (shaped like the gather of `indices`) combined into
    /// `operand`; Add/Max/Min need a numeric operand.
    pub fn scatter(&mut self, operand: NodeId, indices: NodeId, updates: NodeId, axis: usize, combine: ScatterOp)
        -> (r: Result<NodeId, Error>)
        requires
            old(self).wf(), old(self).room(1), old(self).valid(operand), old(self).valid(indices),
            old(self).valid(updates),
        ensures
            final(self).wf(),
            r is Ok <==> axis < old(self).sh(operand).len() && old(self).dt(indices).spec_is_int()
                && old(self).dt(operand) == old(self).dt(updates)
                && old(self).sh(updates) == gathered(old(self).sh(operand), old(self).sh(indices), axis)
                && (combine != ScatterOp::Assign ==> old(self).dt(operand).spec_is_numeric()),
            r matches Ok(id) ==> final(self).pushed(*old(self), id, Op::Scatter { axis, combine }, seq![operand, indices, updates])
                && final(self).sh(id) == old(self).sh(operand) && final(self).dt(id) == old(self).dt(operand),
            r is Err ==> *final(self) == *old(self),
    {
        self.reduce_axis_ok("scatter", operand, axis)?;
        self.require("scatter", indices, self.dtype(indices).is_int())?;
        self.same_dtype("scatter", operand, updates)?;
        let os = &self.nodes[operand.0 as usize].shape;
        let is = &self.nodes[indices.0 as usize].shape;
        let ol = os.len();
        assert(os@ == self.sh(operand) && axis < ol);
        let mut want: Vec<usize> = Vec::new();
        let mut k: usize = 0;
        while k < axis
            invariant k <= axis, axis < os@.len(), want@ == os@.take(k as int),
            decreases axis - k,
        {
            want.push(os[k]);
            k = k + 1;
            assert(want@ =~= os@.take(k as int));
        }
        crate::graph::derive::append_vec(&mut want, is);
        assert(axis < ol);
        let mut k: usize = axis + 1;
        while k < os.len()
            invariant axis + 1 <= k <= os@.len(), want@ == os@.take(axis as int) + is@ + os@.subrange(axis + 1, k as int),
            decreases os@.len() - k,
        {
            want.push(os[k]);
            k = k + 1;
            assert(want@ =~= os@.take(axis as int) + is@ + os@.subrange(axis + 1, k as int));
        }
        assert(os@.subrange(axis + 1, os@.len() as int) =~= os@.skip(axis + 1));
        if !shapes_equal(&self.nodes[updates.0 as usize].shape, &want) {
            return Err(Error::new("scatter", ErrorKind::ShapeMismatch));
        }
        let dt = self.dtype(operand);
        if combine != ScatterOp::Assign && !dt.is_int() && !dt.is_float() {
            return Err(Error::new("scatter", ErrorKind::DTypeClass(dt)));
        }
        let v = vec![operand, indices, updates];
        assert(v@ =~= seq![operand, indices, updates]);
        assert(ins_of(self.nodes@, v@)[0] == (self.sh(operand), self.dt(operand)));
        Ok(self.push(Op::Scatter { axis, combine }, v))
    }

    /// `indices` matches `operand` except along `axis`, with an integer dtype.
    #[verifier::loop_isolation(false)]
    fn along_check(&self, name: &'static str, operand: NodeId, indices: NodeId, axis: usize) -> (r: Result<(), Error>)
        requires self.valid(operand), self.valid(indices),
        ensures
            r is Ok <==> axis < self.sh(operand).len() && self.dt(indices).spec_is_int()
                && along_ok(self.sh(operand), self.sh(indices), axis),
    {
        self.reduce_axis_ok(name, operand, axis)?;
        self.require(name, indices, self.dtype(indices).is_int())?;
        let os = &self.nodes[operand.0 as usize].shape;
        let is = &self.nodes[indices.0 as usize].shape;
        if is.len() != os.len() {
            return Err(Error::new(name, ErrorKind::ShapeMismatch));
        }
        let mut d: usize = 0;
        while d < os.len()
            invariant
                d <= os@.len(), is@.len() == os@.len(), os@ == self.sh(operand), is@ == self.sh(indices),
                forall|e: int| 0 <= e < d && e != axis ==> #[trigger] is@[e] == os@[e],
            decreases os@.len() - d,
        {
            if d != axis && is[d] != os[d] {
                proof { assert(!(is@[d as int] == os@[d as int])); }
                return Err(Error::new(name, ErrorKind::ShapeMismatch));
            }
            d = d + 1;
        }
        Ok(())
    }

    /// `GatherAlong` (take along axis): `indices` has `operand`'s shape except along `axis`.
    pub fn gather_along(&mut self, operand: NodeId, indices: NodeId, axis: usize) -> (r: Result<NodeId, Error>)
        requires old(self).wf(), old(self).room(1), old(self).valid(operand), old(self).valid(indices),
        ensures
            final(self).wf(),
            r is Ok <==> axis < old(self).sh(operand).len() && old(self).dt(indices).spec_is_int()
                && along_ok(old(self).sh(operand), old(self).sh(indices), axis),
            r matches Ok(id) ==> final(self).pushed(*old(self), id, Op::GatherAlong { axis }, seq![operand, indices])
                && final(self).sh(id) == old(self).sh(indices) && final(self).dt(id) == old(self).dt(operand),
            r is Err ==> *final(self) == *old(self),
    {
        self.along_check("gather_along", operand, indices, axis)?;
        let v = vec![operand, indices];
        assert(v@ =~= seq![operand, indices]);
        assert(ins_of(self.nodes@, v@)[0] == (self.sh(operand), self.dt(operand)));
        assert(ins_of(self.nodes@, v@)[1] == (self.sh(indices), self.dt(indices)));
        Ok(self.push(Op::GatherAlong { axis }, v))
    }

    /// `ScatterAlong`: `updates` shaped like `indices`, combined into `operand` along `axis`.
    pub fn scatter_along(&mut self, operand: NodeId, indices: NodeId, updates: NodeId, axis: usize, combine: ScatterOp)
        -> (r: Result<NodeId, Error>)
        requires
            old(self).wf(), old(self).room(1), old(self).valid(operand), old(self).valid(indices),
            old(self).valid(updates),
        ensures
            final(self).wf(),
            r is Ok <==> axis < old(self).sh(operand).len() && old(self).dt(indices).spec_is_int()
                && old(self).dt(operand) == old(self).dt(updates) && old(self).sh(indices) == old(self).sh(updates),
            r matches Ok(id) ==> final(self).pushed(*old(self), id, Op::ScatterAlong { axis, combine }, seq![operand, indices, updates])
                && final(self).sh(id) == old(self).sh(operand) && final(self).dt(id) == old(self).dt(operand),
            r is Err ==> *final(self) == *old(self),
    {
        self.reduce_axis_ok("scatter_along", operand, axis)?;
        self.require("scatter_along", indices, self.dtype(indices).is_int())?;
        self.same_dtype("scatter_along", operand, updates)?;
        self.same_shape("scatter_along", indices, updates)?;
        let v = vec![operand, indices, updates];
        assert(v@ =~= seq![operand, indices, updates]);
        assert(ins_of(self.nodes@, v@)[0] == (self.sh(operand), self.dt(operand)));
        Ok(self.push(Op::ScatterAlong { axis, combine }, v))
    }

    /// I64 permutation sorting `x` along `axis` (numeric).
    pub fn argsort(&mut self, x: NodeId, axis: usize, descending: bool) -> (r: Result<NodeId, Error>)
        requires old(self).wf(), old(self).room(1), old(self).valid(x),
        ensures
            final(self).wf(),
            r is Ok <==> axis < old(self).sh(x).len() && old(self).dt(x).spec_is_numeric(),
            r matches Ok(id) ==> final(self).pushed(*old(self), id, Op::Argsort { axis, descending }, seq![x])
                && final(self).sh(id) == old(self).sh(x) && final(self).dt(id) == DType::I64,
            r is Err ==> *final(self) == *old(self),
    {
        self.reduce_check("argsort", x, axis)?;
        let v = vec![x];
        assert(v@ =~= seq![x]);
        assert(ins_of(self.nodes@, v@)[0] == (self.sh(x), self.dt(x)));
        Ok(self.push(Op::Argsort { axis, descending }, v))
    }

    /// Alias of `gather_along`.
    pub fn take_along_dim(&mut self, x: NodeId, indices: NodeId, axis: usize) -> (r: Result<NodeId, Error>)
        requires old(self).wf(), old(self).room(1), old(self).valid(x), old(self).valid(indices),
        ensures
            final(self).wf(),
            r is Ok <==> axis < old(self).sh(x).len() && old(self).dt(indices).spec_is_int()
                && along_ok(old(self).sh(x), old(self).sh(indices), axis),
            r matches Ok(id) ==> final(self).pushed(*old(self), id, Op::GatherAlong { axis }, seq![x, indices])
                && final(self).sh(id) == old(self).sh(indices) && final(self).dt(id) == old(self).dt(x),
            r is Err ==> *final(self) == *old(self),
    {
        self.gather_along(x, indices, axis)
    }

    /// Sort `x` along `axis` (numeric): `gather_along(x, argsort(x))`.
    pub fn sort(&mut self, x: NodeId, axis: usize, descending: bool) -> (r: Result<NodeId, Error>)
        requires old(self).wf(), old(self).room(2), old(self).valid(x),
        ensures
            final(self).wf(), final(self).grew(*old(self), 2),
            r is Ok <==> axis < old(self).sh(x).len() && old(self).dt(x).spec_is_numeric(),
            r matches Ok(id) ==> final(self).valid(id) && final(self).sh(id) == old(self).sh(x)
                && final(self).dt(id) == old(self).dt(x),
            r matches Ok(id) ==> final(self).node_is(id, Op::GatherAlong { axis }, seq![x, final(self).arg(id, 1)])
                && final(self).node_is(final(self).arg(id, 1), Op::Argsort { axis, descending }, seq![x]),
            r is Err ==> *final(self) == *old(self),
    {
        let perm = self.argsort(x, axis, descending)?;
        self.gather_along(x, perm, axis)
    }

    /// The `k` largest (or smallest) values along `axis` and their I64 indices.
    pub fn topk(&mut self, x: NodeId, k: usize, axis: usize, largest: bool) -> (r: Result<(NodeId, NodeId), Error>)
        requires old(self).wf(), old(self).room(3), old(self).valid(x),
        ensures
            final(self).wf(), final(self).grew(*old(self), 3),
            r is Ok <==> axis < old(self).sh(x).len() && old(self).dt(x).spec_is_numeric()
                && k <= old(self).sh(x)[axis as int],
            r matches Ok(p) ==> final(self).valid(p.0) && final(self).valid(p.1)
                && final(self).sh(p.0) == old(self).sh(x).update(axis as int, k)
                && final(self).sh(p.1) == old(self).sh(x).update(axis as int, k)
                && final(self).dt(p.0) == old(self).dt(x) && final(self).dt(p.1) == DType::I64,
            r matches Ok(p) ==> final(self).node_is(p.0, Op::GatherAlong { axis }, seq![x, p.1])
                && is_piece(*final(self), p.1, final(self).arg(p.1, 0), old(self).sh(x), axis as int, 0, k as int)
                && final(self).node_is(final(self).arg(p.1, 0), Op::Argsort { axis, descending: largest }, seq![x]),
    {
        let perm = self.argsort(x, axis, largest)?;
        let ghost ga = *self;
        let sh = self.shape(x);
        let mut ranges: Vec<(usize, usize)> = Vec::new();
        let mut d: usize = 0;
        while d < sh.len()
            invariant
                d <= sh@.len(),
                ranges@.len() == d,
                forall|e: int| 0 <= e < d ==> #[trigger] ranges@[e] == (0usize, sh@[e]),
            decreases sh@.len() - d,
        {
            ranges.push((0, sh[d]));
            d = d + 1;
        }
        ranges.set(axis, (0, k));
        let ghost rg = ranges@;
        proof {
            let s = old(self).sh(x);
            assert(self.sh(perm) == s);
            if k <= s[axis as int] {
                assert forall|d: int| 0 <= d < rg.len() implies (#[trigger] rg[d]).0 <= rg[d].1 <= self.sh(perm)[d] by {
                    if d != axis { assert(rg[d] == (0usize, sh@[d])); }
                }
            } else {
                assert(!(rg[axis as int].0 <= rg[axis as int].1 <= self.sh(perm)[axis as int]));
            }
        }
        let top_idx = self.slice(perm, ranges)?;
        proof {
            assert(rg.map_values(|r: (usize, usize)| (r.1 - r.0) as usize) =~= old(self).sh(x).update(axis as int, k));
            assert(rg =~= crate::graph::ops::base::signal::axis_window(old(self).sh(x), axis as int, 0, k));
        }
        let ghost gs = *self;
        let top_val = ok_id(self.gather_along(x, top_idx, axis));
        proof {
            ga.lemma_node_kept(*self, perm);
            gs.lemma_node_kept(*self, top_idx);
        }
        Ok((top_val, top_idx))
    }

    /// `idx` as I64 with a trailing size-1 axis, broadcast to `idx`'s shape plus `n`.
    fn onehot_index(&mut self, idx: NodeId, n: usize) -> (id: NodeId)
        requires
            old(self).wf(), old(self).room(3), old(self).valid(idx),
            numel(old(self).sh(idx)) <= usize::MAX,
        ensures
            final(self).wf(), final(self).grew(*old(self), 3),
            final(self).valid(id) && final(self).sh(id) == old(self).sh(idx).push(n) && final(self).dt(id) == DType::I64,
            is_onehot_index(*final(self), id, idx, old(self).sh(idx), n),
    {
        let ish = self.shape(idx);
        let r = ish.len();
        let mut out_shape = crate::graph::op::copy_vec(&ish);
        out_shape.push(n);
        let mut idx_shape = ish;
        idx_shape.push(1);
        proof {
            lemma_numel_concat(old(self).sh(idx), seq![1usize]);
            lemma_numel_single(1);
            assert(idx_shape@ =~= old(self).sh(idx) + seq![1usize]);
        }
        let idx_r = ok_id(self.reshape(idx, idx_shape));
        let ghost gr = *self;
        let idx_i = if self.dtype(idx) == DType::I64 { idx_r } else { self.cast(idx_r, DType::I64) };
        assert(self.nodes@[idx_r.0 as int] == gr.nodes@[idx_r.0 as int]);
        proof {
            assert(expand_ok(self.sh(idx_i), out_shape@)) by {
                assert forall|i: int| 0 <= i < self.sh(idx_i).len() implies #[trigger] self.sh(idx_i)[i] == out_shape@[i] || self.sh(idx_i)[i] == 1 by {
                    if i < r as int {
                        assert(self.sh(idx_i)[i] == old(self).sh(idx)[i]);
                    }
                }
            }
        }
        let ghost gi = *self;
        let res = ok_id(self.expand(idx_i, out_shape));
        assert(self.nodes@[idx_i.0 as int] == gi.nodes@[idx_i.0 as int]);
        assert(self.nodes@[idx_r.0 as int] == gi.nodes@[idx_r.0 as int]);
        res
    }

    /// One-hot F32 encoding of integer-valued `idx` over `num_classes` (a new last axis).
    pub fn onehot(&mut self, idx: NodeId, num_classes: usize) -> (r: Result<NodeId, Error>)
        requires
            old(self).wf(), old(self).room(6), old(self).valid(idx),
            numel(old(self).sh(idx)) <= usize::MAX,
        ensures
            final(self).wf(), final(self).grew(*old(self), 6),
            r matches Ok(id) && final(self).valid(id) && final(self).sh(id) == old(self).sh(idx).push(num_classes)
                && final(self).dt(id) == DType::F32,
            r matches Ok(id) ==> is_onehot_of(*final(self), id, idx, old(self).sh(idx), num_classes),
    {
        let mut out_shape = self.shape(idx);
        let r = out_shape.len();
        out_shape.push(num_classes);
        let classes = ok_id(self.iota(out_shape, r, DType::I64));
        let ghost g1 = *self;
        let idx_b = self.onehot_index(idx, num_classes);
        let ghost g2 = *self;
        let eq = ok_id(self.cmp_eq(classes, idx_b));
        let ghost g3 = *self;
        let res = self.cast(eq, DType::F32);
        proof {
            g3.lemma_node_kept(*self, eq);
            g1.lemma_node_kept(*self, classes);
            let ib = idx_b;
            let ir = g2.arg(ib, 0);
            g2.lemma_arg_kept(*self, ib, 0);
            g2.lemma_node_kept(*self, ib);
            if g2.opn(ir) is Cast {
                g2.lemma_arg_kept(*self, ir, 0);
            }
        }
        Ok(res)
    }
}

} // verus!
