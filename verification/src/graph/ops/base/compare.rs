//! Comparisons, boolean predicates, and select (BOOL-producing ops).

use vstd::prelude::*;
use crate::dtype::DType;
use crate::error::{Error, ErrorKind};
use crate::graph::{Graph, NodeId, Op};
use crate::graph::ops::base::scalar::{ok_id, is_scalar_of, is_bool_scalar, lemma_scalar_kept, lemma_bool_scalar_kept, F32_INFINITY};

verus! {

/// Node `id` of `g` is `not b`: `b xor true`.
pub open spec fn is_not_of(g: Graph, id: NodeId, b: NodeId) -> bool {
    &&& g.node_is(id, Op::Xor, seq![b, g.arg(id, 1)])
    &&& is_bool_scalar(g, g.arg(id, 1), true)
}

/// A `not` node stays one as the graph grows.
pub proof fn lemma_not_kept(g0: Graph, g1: Graph, id: NodeId, b: NodeId)
    requires g0.wf(), is_not_of(g0, id, b), g1.extends(g0),
    ensures is_not_of(g1, id, b),
{
    g0.lemma_arg_kept(g1, id, 1);
    lemma_bool_scalar_kept(g0, g1, g0.arg(id, 1), true);
}

/// Node `id` of `g` is `isinf(x)`: `max(x, -x) == inf`.
pub open spec fn is_isinf_of(g: Graph, id: NodeId, x: NodeId) -> bool {
    let a = g.arg(id, 0);
    &&& g.node_is(id, Op::CmpEq, seq![a, g.arg(id, 1)])
    &&& is_scalar_of(g, g.arg(id, 1), F32_INFINITY)
    &&& g.node_is(a, Op::Max, seq![x, g.arg(a, 1)])
    &&& g.node_is(g.arg(a, 1), Op::Neg, seq![x])
}

impl Graph {
    /// `a < b` -> BOOL (orderable, same shape and dtype).
    pub fn cmp_lt(&mut self, a: NodeId, b: NodeId) -> (r: Result<NodeId, Error>)
        requires old(self).wf(), old(self).room(1), old(self).valid(a), old(self).valid(b),
        ensures
            final(self).wf(),
            r is Ok <==> !old(self).dt(a).spec_is_complex() && old(self).same_sd(a, b),
            r matches Ok(id) ==> final(self).pushed(*old(self), id, Op::CmpLt, seq![a, b])
                && final(self).sh(id) == old(self).sh(a) && final(self).dt(id) == DType::BOOL,
            r matches Err(e) ==> *final(self) == *old(self) && e.kind == (
                if old(self).dt(a).spec_is_complex() { ErrorKind::DTypeClass(old(self).dt(a)) }
                else if old(self).sh(a) != old(self).sh(b) { ErrorKind::ShapeMismatch }
                else { ErrorKind::DTypeMismatch(old(self).dt(a), old(self).dt(b)) }),
    {
        self.require("cmp_lt", a, !self.dtype(a).is_complex())?;
        self.bin("cmp_lt", Op::CmpLt, a, b)
    }

    /// `a == b` -> BOOL (orderable, same shape and dtype).
    pub fn cmp_eq(&mut self, a: NodeId, b: NodeId) -> (r: Result<NodeId, Error>)
        requires old(self).wf(), old(self).room(1), old(self).valid(a), old(self).valid(b),
        ensures
            final(self).wf(),
            r is Ok <==> !old(self).dt(a).spec_is_complex() && old(self).same_sd(a, b),
            r matches Ok(id) ==> final(self).pushed(*old(self), id, Op::CmpEq, seq![a, b])
                && final(self).sh(id) == old(self).sh(a) && final(self).dt(id) == DType::BOOL,
            r matches Err(e) ==> *final(self) == *old(self) && e.kind == (
                if old(self).dt(a).spec_is_complex() { ErrorKind::DTypeClass(old(self).dt(a)) }
                else if old(self).sh(a) != old(self).sh(b) { ErrorKind::ShapeMismatch }
                else { ErrorKind::DTypeMismatch(old(self).dt(a), old(self).dt(b)) }),
    {
        self.require("cmp_eq", a, !self.dtype(a).is_complex())?;
        self.bin("cmp_eq", Op::CmpEq, a, b)
    }

    /// `cond ? a : b` elementwise; `cond` BOOL, all three the same shape, `a`/`b` the same dtype.
    pub fn select(&mut self, cond: NodeId, a: NodeId, b: NodeId) -> (r: Result<NodeId, Error>)
        requires
            old(self).wf(), old(self).room(1), old(self).valid(cond), old(self).valid(a), old(self).valid(b),
        ensures
            final(self).wf(),
            r is Ok <==> old(self).sh(cond) == old(self).sh(a) && old(self).same_sd(a, b)
                && old(self).dt(cond) == DType::BOOL,
            r matches Ok(id) ==> final(self).pushed(*old(self), id, Op::Where, seq![cond, a, b])
                && final(self).sh(id) == old(self).sh(a) && final(self).dt(id) == old(self).dt(a),
            r matches Err(e) ==> *final(self) == *old(self) && e.kind == (
                if old(self).sh(cond) != old(self).sh(a) || old(self).sh(a) != old(self).sh(b) { ErrorKind::ShapeMismatch }
                else if old(self).dt(a) != old(self).dt(b) { ErrorKind::DTypeMismatch(old(self).dt(a), old(self).dt(b)) }
                else { ErrorKind::DTypeClass(old(self).dt(cond)) }),
    {
        self.same_shape("select", cond, a)?;
        self.same_shape("select", a, b)?;
        self.same_dtype("select", a, b)?;
        if self.dtype(cond) != DType::BOOL {
            return Err(Error::new("select", ErrorKind::DTypeClass(self.dtype(cond))));
        }
        let v = vec![cond, a, b];
        assert(v@ =~= seq![cond, a, b]);
        assert(crate::graph::infer::ins_of(self.nodes@, v@)[1].1 == self.dt(a));
        assert(crate::graph::infer::ins_of(self.nodes@, v@)[0].0 == self.sh(cond));
        Ok(self.push(Op::Where, v))
    }

    /// Logical NOT of a BOOL tensor: `xor(b, true)`.
    pub fn logical_not(&mut self, b: NodeId) -> (id: NodeId)
        requires old(self).wf(), old(self).room(3), old(self).valid(b), old(self).dt(b) == DType::BOOL,
        ensures
            final(self).wf(),
            final(self).grew(*old(self), 3),
            final(self).valid(id), final(self).sh(id) == old(self).sh(b), final(self).dt(id) == DType::BOOL,
            final(self).node_is(id, Op::Xor, seq![b, final(self).arg(id, 1)])
                && is_bool_scalar(*final(self), final(self).arg(id, 1), true),
    {
        let t = self.bool_scalar(b, true);
        let ghost g1 = *self;
        let r = ok_id(self.xor(b, t));
        proof { lemma_bool_scalar_kept(g1, *self, t, true); }
        r
    }

    /// `a > b` = `b < a`.
    pub fn gt(&mut self, a: NodeId, b: NodeId) -> (r: Result<NodeId, Error>)
        requires old(self).wf(), old(self).room(1), old(self).valid(a), old(self).valid(b),
        ensures
            final(self).wf(),
            final(self).grew(*old(self), 1),
            r is Ok <==> !old(self).dt(b).spec_is_complex() && old(self).same_sd(a, b),
            r matches Ok(id) ==> final(self).valid(id) && final(self).sh(id) == old(self).sh(a)
                && final(self).dt(id) == DType::BOOL,
            r is Err ==> *final(self) == *old(self),
            r matches Ok(id) ==> final(self).node_is(id, Op::CmpLt, seq![b, a]),
    {
        self.cmp_lt(b, a)
    }

    /// `a >= b` = `!(a < b)`.
    pub fn ge(&mut self, a: NodeId, b: NodeId) -> (r: Result<NodeId, Error>)
        requires old(self).wf(), old(self).room(4), old(self).valid(a), old(self).valid(b),
        ensures
            final(self).wf(),
            final(self).grew(*old(self), 4),
            r is Ok <==> !old(self).dt(a).spec_is_complex() && old(self).same_sd(a, b),
            r matches Ok(id) ==> final(self).valid(id) && final(self).sh(id) == old(self).sh(a)
                && final(self).dt(id) == DType::BOOL,
            r matches Ok(id) ==> ({
                let g = *final(self);
                &&& g.node_is(id, Op::Xor, seq![g.arg(id, 0), g.arg(id, 1)])
                &&& g.node_is(g.arg(id, 0), Op::CmpLt, seq![a, b])
                &&& is_bool_scalar(g, g.arg(id, 1), true)
            }),
            r is Err ==> *final(self) == *old(self),
    {
        let lt = self.cmp_lt(a, b)?;
        Ok(self.logical_not(lt))
    }

    /// `a <= b` = `!(b < a)`.
    pub fn le(&mut self, a: NodeId, b: NodeId) -> (r: Result<NodeId, Error>)
        requires old(self).wf(), old(self).room(4), old(self).valid(a), old(self).valid(b),
        ensures
            final(self).wf(),
            final(self).grew(*old(self), 4),
            r is Ok <==> !old(self).dt(b).spec_is_complex() && old(self).same_sd(a, b),
            r matches Ok(id) ==> final(self).valid(id) && final(self).sh(id) == old(self).sh(a)
                && final(self).dt(id) == DType::BOOL,
            r is Err ==> *final(self) == *old(self),
            r matches Ok(id) ==> is_not_of(*final(self), id, final(self).arg(id, 0))
                && final(self).node_is(final(self).arg(id, 0), Op::CmpLt, seq![b, a]),
    {
        let gt = self.cmp_lt(b, a)?;
        let res = self.logical_not(gt);
        Ok(res)
    }

    /// `a != b` = `!(a == b)`.
    pub fn ne(&mut self, a: NodeId, b: NodeId) -> (r: Result<NodeId, Error>)
        requires old(self).wf(), old(self).room(4), old(self).valid(a), old(self).valid(b),
        ensures
            final(self).wf(),
            final(self).grew(*old(self), 4),
            r is Ok <==> !old(self).dt(a).spec_is_complex() && old(self).same_sd(a, b),
            r matches Ok(id) ==> final(self).valid(id) && final(self).sh(id) == old(self).sh(a)
                && final(self).dt(id) == DType::BOOL,
            r is Err ==> *final(self) == *old(self),
            r matches Ok(id) ==> is_not_of(*final(self), id, final(self).arg(id, 0))
                && final(self).node_is(final(self).arg(id, 0), Op::CmpEq, seq![a, b]),
    {
        let eq = self.cmp_eq(a, b)?;
        Ok(self.logical_not(eq))
    }

    /// `isnan(x) = x != x`.
    pub fn isnan(&mut self, x: NodeId) -> (r: Result<NodeId, Error>)
        requires old(self).wf(), old(self).room(4), old(self).valid(x),
        ensures
            final(self).wf(),
            final(self).grew(*old(self), 4),
            r is Ok <==> !old(self).dt(x).spec_is_complex(),
            r matches Ok(id) ==> final(self).valid(id) && final(self).sh(id) == old(self).sh(x)
                && final(self).dt(id) == DType::BOOL,
            r is Err ==> *final(self) == *old(self),
            r matches Ok(id) ==> is_not_of(*final(self), id, final(self).arg(id, 0))
                && final(self).node_is(final(self).arg(id, 0), Op::CmpEq, seq![x, x]),
    {
        self.ne(x, x)
    }

    /// `isinf(x) = |x| == +inf` (signed dtype).
    pub fn isinf(&mut self, x: NodeId) -> (r: Result<NodeId, Error>)
        requires old(self).wf(), old(self).room(6), old(self).valid(x), old(self).dt(x).spec_is_signed(),
        ensures
            final(self).wf(),
            final(self).grew(*old(self), 6),
            r is Ok,
            r matches Ok(id) ==> final(self).valid(id) && final(self).sh(id) == old(self).sh(x)
                && final(self).dt(id) == DType::BOOL,
            r matches Ok(id) ==> is_isinf_of(*final(self), id, x),
    {
        let a = self.abs(x);
        let inf = self.scalar(x, F32_INFINITY);
        let ghost g1 = *self;
        let res = self.cmp_eq(a, inf);
        proof { lemma_scalar_kept(g1, *self, inf, F32_INFINITY); }
        res
    }

    /// `isfinite(x) = !(isnan(x) or isinf(x))` (signed dtype).
    pub fn isfinite(&mut self, x: NodeId) -> (r: Result<NodeId, Error>)
        requires old(self).wf(), old(self).room(14), old(self).valid(x), old(self).dt(x).spec_is_signed(),
        ensures
            final(self).wf(),
            final(self).grew(*old(self), 14),
            r is Ok,
            r matches Ok(id) ==> final(self).valid(id) && final(self).sh(id) == old(self).sh(x)
                && final(self).dt(id) == DType::BOOL,
            r matches Ok(id) ==> ({
                let g = *final(self);
                let bad = g.arg(id, 0);
                let n = g.arg(bad, 0);
                let i = g.arg(bad, 1);
                &&& is_not_of(g, id, bad)
                &&& g.node_is(bad, Op::Or, seq![n, i])
                &&& is_not_of(g, n, g.arg(n, 0)) && g.node_is(g.arg(n, 0), Op::CmpEq, seq![x, x])
                &&& is_isinf_of(g, i, x)
            }),
    {
        let n = self.isnan(x)?;
        let ghost g1 = *self;
        let i = self.isinf(x)?;
        let ghost g2 = *self;
        let bad = self.or(n, i)?;
        let res = self.logical_not(bad);
        proof {
            lemma_not_kept(g1, *self, n, g1.arg(n, 0));
            g1.lemma_arg_kept(*self, n, 0);
            let a = g2.arg(i, 0);
            g2.lemma_arg_kept(*self, i, 0);
            g2.lemma_arg_kept(*self, i, 1);
            g2.lemma_arg_kept(*self, a, 1);
            g2.lemma_arg_valid(i, 1);
            lemma_scalar_kept(g2, *self, g2.arg(i, 1), F32_INFINITY);
        }
        Ok(res)
    }
    /// `where(mask, value, x)`: positions where `mask` holds get `value` (an f32 bit pattern).
    pub fn masked_fill(&mut self, x: NodeId, mask: NodeId, value: u32) -> (r: Result<NodeId, Error>)
        requires old(self).wf(), old(self).room(4), old(self).valid(x), old(self).valid(mask),
        ensures
            final(self).wf(), final(self).grew(*old(self), 4),
            r is Ok <==> old(self).sh(mask) == old(self).sh(x) && old(self).dt(mask) == DType::BOOL,
            r matches Ok(id) ==> final(self).valid(id) && final(self).sh(id) == old(self).sh(x)
                && final(self).dt(id) == old(self).dt(x),
            r matches Ok(id) ==> final(self).node_is(id, Op::Where, seq![mask, final(self).arg(id, 1), x])
                && is_scalar_of(*final(self), final(self).arg(id, 1), value),
    {
        let v = self.scalar(x, value);
        let ghost g1 = *self;
        let r = self.select(mask, v, x);
        proof { lemma_scalar_kept(g1, *self, v, value); }
        r
    }
}

} // verus!
