//! Record-time validation guards shared by the op builders: dtype-class checks,
//! reduction-axis bounds, and the same-shape/same-dtype binary contract.

use vstd::prelude::*;
use crate::error::{Error, ErrorKind};
use crate::graph::{Graph, NodeId, Op};
use crate::graph::infer::ins_of;

verus! {

/// Element-wise equality of two shapes.
pub fn shapes_equal(a: &Vec<usize>, b: &Vec<usize>) -> (r: bool)
    ensures r == (a@ == b@),
{
    if a.len() != b.len() {
        return false;
    }
    let mut i: usize = 0;
    while i < a.len()
        invariant
            a@.len() == b@.len(),
            i <= a@.len(),
            forall|j: int| 0 <= j < i ==> a@[j] == b@[j],
        decreases a@.len() - i,
    {
        if a[i] != b[i] {
            return false;
        }
        i = i + 1;
    }
    assert(a@ =~= b@);
    true
}

impl Graph {
    /// `ok` or a dtype-class error naming `a`'s dtype.
    pub(crate) fn require(&self, op: &'static str, a: NodeId, ok: bool) -> (r: Result<(), Error>)
        requires self.valid(a),
        ensures
            r is Ok <==> ok,
            r matches Err(e) ==> e.op == op && e.kind == ErrorKind::DTypeClass(self.dt(a)),
    {
        if ok { Ok(()) } else { Err(Error::new(op, ErrorKind::DTypeClass(self.dtype(a)))) }
    }

    /// `axis` is below the rank of `a`.
    pub(crate) fn reduce_axis_ok(&self, op: &'static str, a: NodeId, axis: usize) -> (r: Result<(), Error>)
        requires self.valid(a),
        ensures
            r is Ok <==> axis < self.sh(a).len(),
            r matches Err(e) ==> e.op == op && e.kind == (ErrorKind::AxisOutOfRange { axis, rank: self.sh(a).len() as usize }),
    {
        let rank = self.rank(a);
        if axis >= rank {
            return Err(Error::new(op, ErrorKind::AxisOutOfRange { axis, rank }));
        }
        Ok(())
    }

    /// Axis in range and an ordered (numeric) element type.
    pub(crate) fn reduce_check(&self, op: &'static str, a: NodeId, axis: usize) -> (r: Result<(), Error>)
        requires self.valid(a),
        ensures r is Ok <==> axis < self.sh(a).len() && self.dt(a).spec_is_numeric(),
    {
        self.reduce_axis_ok(op, a, axis)?;
        self.require(op, a, self.dtype(a).is_numeric())
    }

    /// Axis in range and a field-arithmetic (numeric or complex) element type.
    pub(crate) fn reduce_check_arith(&self, op: &'static str, a: NodeId, axis: usize) -> (r: Result<(), Error>)
        requires self.valid(a),
        ensures r is Ok <==> axis < self.sh(a).len() && self.dt(a).spec_is_arith(),
    {
        self.reduce_axis_ok(op, a, axis)?;
        self.require(op, a, self.dtype(a).is_arith())
    }

    pub(crate) fn same_shape(&self, op: &'static str, a: NodeId, b: NodeId) -> (r: Result<(), Error>)
        requires self.valid(a), self.valid(b),
        ensures
            r is Ok <==> self.sh(a) == self.sh(b),
            r matches Err(e) ==> e.op == op && e.kind == ErrorKind::ShapeMismatch,
    {
        if !shapes_equal(&self.nodes[a.0 as usize].shape, &self.nodes[b.0 as usize].shape) {
            return Err(Error::new(op, ErrorKind::ShapeMismatch));
        }
        Ok(())
    }

    pub(crate) fn same_dtype(&self, op: &'static str, a: NodeId, b: NodeId) -> (r: Result<(), Error>)
        requires self.valid(a), self.valid(b),
        ensures
            r is Ok <==> self.dt(a) == self.dt(b),
            r matches Err(e) ==> e.op == op && e.kind == ErrorKind::DTypeMismatch(self.dt(a), self.dt(b)),
    {
        let (lhs, rhs) = (self.dtype(a), self.dtype(b));
        if lhs != rhs {
            return Err(Error::new(op, ErrorKind::DTypeMismatch(lhs, rhs)));
        }
        Ok(())
    }

    /// Push an elementwise node `op(a, b)` (shape and dtype of `a`).
    pub(crate) fn push_bin(&mut self, op: Op, a: NodeId, b: NodeId) -> (id: NodeId)
        requires
            old(self).wf(), old(self).room(1), old(self).valid(a), old(self).valid(b),
            op.is_elementwise(),
        ensures
            final(self).wf(),
            final(self).pushed(*old(self), id, op, seq![a, b]),
            final(self).opn(id) == op,
            final(self).sh(id) == old(self).sh(a),
            final(self).dt(id) == (if op.is_compare() { crate::dtype::DType::BOOL } else { old(self).dt(a) }),
    {
        let v = vec![a, b];
        assert(v@ =~= seq![a, b]);
        let ghost ins = ins_of(self.nodes@, v@);
        assert(ins[0] == (self.sh(a), self.dt(a)));
        self.push(op, v)
    }

    /// Push an elementwise node `op(a)` (shape and dtype of `a`).
    pub(crate) fn push_un(&mut self, op: Op, a: NodeId) -> (id: NodeId)
        requires
            old(self).wf(), old(self).room(1), old(self).valid(a),
            op.is_elementwise(),
        ensures
            final(self).wf(),
            final(self).pushed(*old(self), id, op, seq![a]),
            final(self).opn(id) == op,
            final(self).sh(id) == old(self).sh(a),
            final(self).dt(id) == (if op.is_compare() { crate::dtype::DType::BOOL } else { old(self).dt(a) }),
    {
        let v = vec![a];
        assert(v@ =~= seq![a]);
        let ghost ins = ins_of(self.nodes@, v@);
        assert(ins[0] == (self.sh(a), self.dt(a)));
        self.push(op, v)
    }

    /// Strict same-shape, same-dtype binary op.
    pub(crate) fn bin(&mut self, name: &'static str, op: Op, a: NodeId, b: NodeId) -> (r: Result<NodeId, Error>)
        requires
            old(self).wf(), old(self).room(1), old(self).valid(a), old(self).valid(b),
            op.is_elementwise(),
        ensures
            final(self).wf(),
            r is Ok <==> old(self).sh(a) == old(self).sh(b) && old(self).dt(a) == old(self).dt(b),
            r matches Ok(id) ==> final(self).pushed(*old(self), id, op, seq![a, b])
                && final(self).sh(id) == old(self).sh(a)
                && final(self).dt(id) == (if op.is_compare() { crate::dtype::DType::BOOL } else { old(self).dt(a) }),
            r matches Err(e) ==> *final(self) == *old(self) && e.op == name
                && e.kind == (if old(self).sh(a) != old(self).sh(b) { ErrorKind::ShapeMismatch }
                    else { ErrorKind::DTypeMismatch(old(self).dt(a), old(self).dt(b)) }),
    {
        self.same_shape(name, a, b)?;
        self.same_dtype(name, a, b)?;
        Ok(self.push_bin(op, a, b))
    }
}

} // verus!
