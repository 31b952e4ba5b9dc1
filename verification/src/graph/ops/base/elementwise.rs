//! Elementwise arithmetic: the binary/unary primitives and their decompositions
//! (sub/div/abs/sign/min/rounding/rem).

use vstd::prelude::*;
use crate::dtype::DType;
use crate::error::{Error, ErrorKind};
use crate::graph::{Graph, NodeId, Op};
use crate::graph::ops::base::scalar::{ok_id, is_scalar_of, lemma_scalar_kept, F32_HALF, F32_NEG_ONE, F32_ONE, F32_ZERO};

verus! {

/// Float or complex element type.
pub open spec fn float_or_complex(d: DType) -> bool {
    d.spec_is_float() || d.spec_is_complex()
}

/// Node `id` of `g` is `sign(x) = where(0 < x, 1, 0) + where(x < 0, -1, 0)`.
pub open spec fn is_sign_of(g: Graph, id: NodeId, x: NodeId) -> bool {
    let p = g.arg(id, 0);
    let n = g.arg(id, 1);
    let z = g.arg(p, 2);
    &&& g.node_is(id, Op::Add, seq![p, n])
    &&& g.node_is(p, Op::Where, seq![g.arg(p, 0), g.arg(p, 1), z])
    &&& g.node_is(g.arg(p, 0), Op::CmpLt, seq![z, x])
    &&& g.node_is(n, Op::Where, seq![g.arg(n, 0), g.arg(n, 1), z])
    &&& g.node_is(g.arg(n, 0), Op::CmpLt, seq![x, z])
    &&& is_scalar_of(g, z, F32_ZERO) && is_scalar_of(g, g.arg(p, 1), F32_ONE)
    &&& is_scalar_of(g, g.arg(n, 1), F32_NEG_ONE)
}

/// A `sign` node stays one as the graph grows.
pub proof fn lemma_sign_kept(g0: Graph, g1: Graph, id: NodeId, x: NodeId)
    requires g0.wf(), is_sign_of(g0, id, x), g1.extends(g0),
    ensures is_sign_of(g1, id, x),
{
    let p = g0.arg(id, 0);
    let n = g0.arg(id, 1);
    g0.lemma_arg_kept(g1, id, 0);
    g0.lemma_arg_kept(g1, id, 1);
    g0.lemma_arg_kept(g1, p, 0);
    g0.lemma_arg_kept(g1, p, 1);
    g0.lemma_arg_kept(g1, p, 2);
    g0.lemma_arg_kept(g1, n, 0);
    g0.lemma_arg_kept(g1, n, 1);
    lemma_scalar_kept(g0, g1, g0.arg(p, 2), F32_ZERO);
    lemma_scalar_kept(g0, g1, g0.arg(p, 1), F32_ONE);
    lemma_scalar_kept(g0, g1, g0.arg(n, 1), F32_NEG_ONE);
}

impl Graph {
    /// `a` and `b` have the same shape and dtype.
    pub open spec fn same_sd(&self, a: NodeId, b: NodeId) -> bool {
        self.sh(a) == self.sh(b) && self.dt(a) == self.dt(b)
    }

    /// `a + b` (same shape and dtype, numeric or complex).
    pub fn add(&mut self, a: NodeId, b: NodeId) -> (r: Result<NodeId, Error>)
        requires old(self).wf(), old(self).room(1), old(self).valid(a), old(self).valid(b),
        ensures
            final(self).wf(),
            r is Ok <==> old(self).same_sd(a, b) && old(self).dt(a).spec_is_arith(),
            r matches Ok(id) ==> final(self).pushed(*old(self), id, Op::Add, seq![a, b])
                && final(self).sh(id) == old(self).sh(a) && final(self).dt(id) == old(self).dt(a),
            r matches Err(e) ==> *final(self) == *old(self) && e.kind == (
                if old(self).sh(a) != old(self).sh(b) { ErrorKind::ShapeMismatch }
                else if old(self).dt(a) != old(self).dt(b) { ErrorKind::DTypeMismatch(old(self).dt(a), old(self).dt(b)) }
                else { ErrorKind::DTypeClass(old(self).dt(a)) }),
    {
        self.same_shape("add", a, b)?;
        self.same_dtype("add", a, b)?;
        self.require("add", a, self.dtype(a).is_arith())?;
        Ok(self.push_bin(Op::Add, a, b))
    }

    /// `a * b` (same shape and dtype, numeric or complex).
    pub fn mul(&mut self, a: NodeId, b: NodeId) -> (r: Result<NodeId, Error>)
        requires old(self).wf(), old(self).room(1), old(self).valid(a), old(self).valid(b),
        ensures
            final(self).wf(),
            r is Ok <==> old(self).same_sd(a, b) && old(self).dt(a).spec_is_arith(),
            r matches Ok(id) ==> final(self).pushed(*old(self), id, Op::Mul, seq![a, b])
                && final(self).sh(id) == old(self).sh(a) && final(self).dt(id) == old(self).dt(a),
            r matches Err(e) ==> *final(self) == *old(self) && e.kind == (
                if old(self).sh(a) != old(self).sh(b) { ErrorKind::ShapeMismatch }
                else if old(self).dt(a) != old(self).dt(b) { ErrorKind::DTypeMismatch(old(self).dt(a), old(self).dt(b)) }
                else { ErrorKind::DTypeClass(old(self).dt(a)) }),
    {
        self.same_shape("mul", a, b)?;
        self.same_dtype("mul", a, b)?;
        self.require("mul", a, self.dtype(a).is_arith())?;
        Ok(self.push_bin(Op::Mul, a, b))
    }

    /// Elementwise maximum (same shape and dtype, numeric).
    pub fn max(&mut self, a: NodeId, b: NodeId) -> (r: Result<NodeId, Error>)
        requires old(self).wf(), old(self).room(1), old(self).valid(a), old(self).valid(b),
        ensures
            final(self).wf(),
            r is Ok <==> old(self).same_sd(a, b) && old(self).dt(a).spec_is_numeric(),
            r matches Ok(id) ==> final(self).pushed(*old(self), id, Op::Max, seq![a, b])
                && final(self).sh(id) == old(self).sh(a) && final(self).dt(id) == old(self).dt(a),
            r matches Err(e) ==> *final(self) == *old(self) && e.kind == (
                if old(self).sh(a) != old(self).sh(b) { ErrorKind::ShapeMismatch }
                else if old(self).dt(a) != old(self).dt(b) { ErrorKind::DTypeMismatch(old(self).dt(a), old(self).dt(b)) }
                else { ErrorKind::DTypeClass(old(self).dt(a)) }),
    {
        self.same_shape("max", a, b)?;
        self.same_dtype("max", a, b)?;
        self.require("max", a, self.dtype(a).is_numeric())?;
        Ok(self.push_bin(Op::Max, a, b))
    }

    /// `-a` (signed or complex dtype).
    pub fn neg(&mut self, a: NodeId) -> (id: NodeId)
        requires
            old(self).wf(), old(self).room(1), old(self).valid(a),
            old(self).dt(a).spec_is_signed() || old(self).dt(a).spec_is_complex(),
        ensures
            final(self).wf(),
            final(self).pushed(*old(self), id, Op::Neg, seq![a]),
            final(self).sh(id) == old(self).sh(a), final(self).dt(id) == old(self).dt(a),
    {
        self.push_un(Op::Neg, a)
    }

    /// `1 / a` (float or complex dtype).
    pub fn recip(&mut self, a: NodeId) -> (id: NodeId)
        requires old(self).wf(), old(self).room(1), old(self).valid(a), float_or_complex(old(self).dt(a)),
        ensures
            final(self).wf(),
            final(self).pushed(*old(self), id, Op::Recip, seq![a]),
            final(self).sh(id) == old(self).sh(a), final(self).dt(id) == old(self).dt(a),
    {
        self.push_un(Op::Recip, a)
    }

    /// Square root (float or complex dtype).
    pub fn sqrt(&mut self, a: NodeId) -> (id: NodeId)
        requires old(self).wf(), old(self).room(1), old(self).valid(a), float_or_complex(old(self).dt(a)),
        ensures
            final(self).wf(),
            final(self).pushed(*old(self), id, Op::Sqrt, seq![a]),
            final(self).sh(id) == old(self).sh(a), final(self).dt(id) == old(self).dt(a),
    {
        self.push_un(Op::Sqrt, a)
    }

    /// `2^a` (float or complex dtype).
    pub fn exp2(&mut self, a: NodeId) -> (id: NodeId)
        requires old(self).wf(), old(self).room(1), old(self).valid(a), float_or_complex(old(self).dt(a)),
        ensures
            final(self).wf(),
            final(self).pushed(*old(self), id, Op::Exp2, seq![a]),
            final(self).sh(id) == old(self).sh(a), final(self).dt(id) == old(self).dt(a),
    {
        self.push_un(Op::Exp2, a)
    }

    /// `log2(a)` (float or complex dtype).
    pub fn log2(&mut self, a: NodeId) -> (id: NodeId)
        requires old(self).wf(), old(self).room(1), old(self).valid(a), float_or_complex(old(self).dt(a)),
        ensures
            final(self).wf(),
            final(self).pushed(*old(self), id, Op::Log2, seq![a]),
            final(self).sh(id) == old(self).sh(a), final(self).dt(id) == old(self).dt(a),
    {
        self.push_un(Op::Log2, a)
    }

    /// Round toward negative infinity (float dtype).
    pub fn floor(&mut self, a: NodeId) -> (id: NodeId)
        requires old(self).wf(), old(self).room(1), old(self).valid(a), old(self).dt(a).spec_is_float(),
        ensures
            final(self).wf(),
            final(self).pushed(*old(self), id, Op::Floor, seq![a]),
            final(self).sh(id) == old(self).sh(a), final(self).dt(id) == old(self).dt(a),
    {
        self.push_un(Op::Floor, a)
    }

    /// `x - y = x + (-y)`.
    pub fn sub(&mut self, x: NodeId, y: NodeId) -> (r: Result<NodeId, Error>)
        requires
            old(self).wf(), old(self).room(2), old(self).valid(x), old(self).valid(y),
            old(self).dt(y).spec_is_signed() || old(self).dt(y).spec_is_complex(),
        ensures
            final(self).wf(),
            final(self).grew(*old(self), 2),
            r is Ok <==> old(self).same_sd(x, y),
            r matches Ok(id) ==> final(self).valid(id) && final(self).sh(id) == old(self).sh(x)
                && final(self).dt(id) == old(self).dt(x),
            r matches Ok(id) ==> final(self).node_is(id, Op::Add, seq![x, final(self).arg(id, 1)])
                && final(self).node_is(final(self).arg(id, 1), Op::Neg, seq![y]),
    {
        let ny = self.neg(y);
        self.add(x, ny)
    }

    /// `x / y = x * (1/y)`.
    pub fn div(&mut self, x: NodeId, y: NodeId) -> (r: Result<NodeId, Error>)
        requires
            old(self).wf(), old(self).room(2), old(self).valid(x), old(self).valid(y),
            float_or_complex(old(self).dt(y)),
        ensures
            final(self).wf(),
            final(self).grew(*old(self), 2),
            r is Ok <==> old(self).same_sd(x, y),
            r matches Ok(id) ==> final(self).valid(id) && final(self).sh(id) == old(self).sh(x)
                && final(self).dt(id) == old(self).dt(x),
            r matches Ok(id) ==> final(self).node_is(id, Op::Mul, seq![x, final(self).arg(id, 1)])
                && final(self).node_is(final(self).arg(id, 1), Op::Recip, seq![y]),
    {
        let ry = self.recip(y);
        self.mul(x, ry)
    }

    /// `|x| = max(x, -x)` (signed dtype).
    pub fn abs(&mut self, x: NodeId) -> (id: NodeId)
        requires old(self).wf(), old(self).room(2), old(self).valid(x), old(self).dt(x).spec_is_signed(),
        ensures
            final(self).wf(),
            final(self).grew(*old(self), 2),
            final(self).valid(id), final(self).sh(id) == old(self).sh(x), final(self).dt(id) == old(self).dt(x),
            final(self).node_is(id, Op::Max, seq![x, final(self).arg(id, 1)]) && final(self).node_is(final(self).arg(id, 1), Op::Neg, seq![x]),
    {
        let nx = self.neg(x);
        ok_id(self.max(x, nx))
    }

    /// `x * x`.
    pub fn square(&mut self, x: NodeId) -> (id: NodeId)
        requires old(self).wf(), old(self).room(1), old(self).valid(x), old(self).dt(x).spec_is_arith(),
        ensures
            final(self).wf(),
            final(self).grew(*old(self), 1),
            final(self).valid(id), final(self).sh(id) == old(self).sh(x), final(self).dt(id) == old(self).dt(x),
            final(self).node_is(id, Op::Mul, seq![x, x]),
    {
        ok_id(self.mul(x, x))
    }

    /// `1` where `x > 0`, `-1` where `x < 0`, else `0` (numeric dtype).
    pub fn sign(&mut self, x: NodeId) -> (id: NodeId)
        requires old(self).wf(), old(self).room(14), old(self).valid(x), old(self).dt(x).spec_is_numeric(),
        ensures
            final(self).wf(),
            final(self).grew(*old(self), 14),
            final(self).valid(id), final(self).sh(id) == old(self).sh(x), final(self).dt(id) == old(self).dt(x),
            is_sign_of(*final(self), id, x),
    {
        let z = self.zeros_like(x);
        let ghost g1 = *self;
        let pos = ok_id(self.cmp_lt(z, x));
        let neg = ok_id(self.cmp_lt(x, z));
        let one = self.ones_like(x);
        let ghost g2 = *self;
        let neg1 = self.scalar(x, F32_NEG_ONE);
        let ghost g3 = *self;
        let p = ok_id(self.select(pos, one, z));
        let n = ok_id(self.select(neg, neg1, z));
        let r = ok_id(self.add(p, n));
        proof {
            lemma_scalar_kept(g1, *self, z, F32_ZERO);
            lemma_scalar_kept(g2, *self, one, F32_ONE);
            lemma_scalar_kept(g3, *self, neg1, F32_NEG_ONE);
        }
        r
    }

    /// Elementwise minimum: `where(a < b, a, b)`.
    pub fn min(&mut self, a: NodeId, b: NodeId) -> (r: Result<NodeId, Error>)
        requires old(self).wf(), old(self).room(2), old(self).valid(a), old(self).valid(b),
        ensures
            final(self).wf(),
            final(self).grew(*old(self), 2),
            r is Ok <==> old(self).same_sd(a, b) && !old(self).dt(a).spec_is_complex(),
            r matches Ok(id) ==> final(self).valid(id) && final(self).sh(id) == old(self).sh(a)
                && final(self).dt(id) == old(self).dt(a),
            r matches Ok(id) ==> final(self).node_is(id, Op::Where, seq![final(self).arg(id, 0), a, b])
                && final(self).node_is(final(self).arg(id, 0), Op::CmpLt, seq![a, b]),
    {
        let lt = self.cmp_lt(a, b)?;
        self.select(lt, a, b)
    }

    /// `ceil(x) = -floor(-x)` (float dtype).
    pub fn ceil(&mut self, x: NodeId) -> (id: NodeId)
        requires old(self).wf(), old(self).room(3), old(self).valid(x), old(self).dt(x).spec_is_float(),
        ensures
            final(self).wf(),
            final(self).grew(*old(self), 3),
            final(self).valid(id), final(self).sh(id) == old(self).sh(x), final(self).dt(id) == old(self).dt(x),
            final(self).node_is(id, Op::Neg, seq![final(self).arg(id, 0)])
                && final(self).node_is(final(self).arg(id, 0), Op::Floor, seq![final(self).arg(final(self).arg(id, 0), 0)])
                && final(self).node_is(final(self).arg(final(self).arg(id, 0), 0), Op::Neg, seq![x]),
    {
        let nx = self.neg(x);
        let f = self.floor(nx);
        self.neg(f)
    }

    /// `round(x) = floor(x + 0.5)` (float dtype).
    pub fn round(&mut self, x: NodeId) -> (id: NodeId)
        requires old(self).wf(), old(self).room(5), old(self).valid(x), old(self).dt(x).spec_is_float(),
        ensures
            final(self).wf(),
            final(self).grew(*old(self), 5),
            final(self).valid(id), final(self).sh(id) == old(self).sh(x), final(self).dt(id) == old(self).dt(x),
            final(self).node_is(id, Op::Floor, seq![final(self).arg(id, 0)])
                && final(self).node_is(final(self).arg(id, 0), Op::Add, seq![x, final(self).arg(final(self).arg(id, 0), 1)])
                && is_scalar_of(*final(self), final(self).arg(final(self).arg(id, 0), 1), F32_HALF),
    {
        let half = self.scalar(x, F32_HALF);
        let ghost g1 = *self;
        let s = ok_id(self.add(x, half));
        let f = self.floor(s);
        proof { lemma_scalar_kept(g1, *self, half, F32_HALF); }
        f
    }

    /// Float remainder `a - floor(a/b)*b`.
    pub fn rem(&mut self, a: NodeId, b: NodeId) -> (r: Result<NodeId, Error>)
        requires
            old(self).wf(), old(self).room(6), old(self).valid(a), old(self).valid(b),
            float_or_complex(old(self).dt(b)),
            old(self).same_sd(a, b) ==> old(self).dt(a).spec_is_float(),
        ensures
            final(self).wf(),
            final(self).grew(*old(self), 6),
            r is Ok <==> old(self).same_sd(a, b),
            r matches Ok(id) ==> final(self).valid(id) && final(self).sh(id) == old(self).sh(a)
                && final(self).dt(id) == old(self).dt(a),
            r matches Ok(id) ==> ({
                let g = *final(self);
                let fb = g.arg(g.arg(id, 1), 0);
                let f = g.arg(fb, 0);
                let q = g.arg(f, 0);
                &&& g.node_is(id, Op::Add, seq![a, g.arg(id, 1)])
                &&& g.node_is(g.arg(id, 1), Op::Neg, seq![fb])
                &&& g.node_is(fb, Op::Mul, seq![f, b])
                &&& g.node_is(f, Op::Floor, seq![q])
                &&& g.node_is(q, Op::Mul, seq![a, g.arg(q, 1)])
                &&& g.node_is(g.arg(q, 1), Op::Recip, seq![b])
            }),
    {
        let q = self.div(a, b)?;
        let f = self.floor(q);
        let fb = self.mul(f, b)?;
        let r = self.sub(a, fb);
        r
    }

    /// `min(max(x, lo), hi)` with `lo`, `hi` given as f32 bit patterns (numeric dtype).
    pub fn clamp(&mut self, x: NodeId, lo: u32, hi: u32) -> (r: Result<NodeId, Error>)
        requires old(self).wf(), old(self).room(9), old(self).valid(x),
        ensures
            final(self).wf(), final(self).grew(*old(self), 9),
            r is Ok <==> old(self).dt(x).spec_is_numeric(),
            r matches Ok(id) ==> final(self).valid(id) && final(self).sh(id) == old(self).sh(x)
                && final(self).dt(id) == old(self).dt(x),
            r matches Ok(id) ==> ({
                let g = *final(self);
                let up = g.arg(id, 1);
                let hc = g.arg(id, 2);
                &&& g.node_is(id, Op::Where, seq![g.arg(id, 0), up, hc])
                &&& g.node_is(g.arg(id, 0), Op::CmpLt, seq![up, hc])
                &&& g.node_is(up, Op::Max, seq![x, g.arg(up, 1)])
                &&& is_scalar_of(g, g.arg(up, 1), lo) && is_scalar_of(g, hc, hi)
            }),
    {
        let lo_c = self.scalar(x, lo);
        let ghost g1 = *self;
        let hi_c = self.scalar(x, hi);
        let ghost g2 = *self;
        let up = self.max(x, lo_c)?;
        let r = self.min(up, hi_c);
        proof {
            lemma_scalar_kept(g1, *self, lo_c, lo);
            lemma_scalar_kept(g2, *self, hi_c, hi);
        }
        r
    }

    /// `max(x, lo)` with `lo` an f32 bit pattern (numeric dtype).
    pub fn clamp_min(&mut self, x: NodeId, lo: u32) -> (r: Result<NodeId, Error>)
        requires old(self).wf(), old(self).room(4), old(self).valid(x),
        ensures
            final(self).wf(), final(self).grew(*old(self), 4),
            r is Ok <==> old(self).dt(x).spec_is_numeric(),
            r matches Ok(id) ==> final(self).valid(id) && final(self).sh(id) == old(self).sh(x)
                && final(self).dt(id) == old(self).dt(x),
            r matches Ok(id) ==> final(self).node_is(id, Op::Max, seq![x, final(self).arg(id, 1)])
                && is_scalar_of(*final(self), final(self).arg(id, 1), lo),
    {
        let c = self.scalar(x, lo);
        let ghost g1 = *self;
        let r = self.max(x, c);
        proof { lemma_scalar_kept(g1, *self, c, lo); }
        r
    }

    /// `min(x, hi)` with `hi` an f32 bit pattern (not complex).
    pub fn clamp_max(&mut self, x: NodeId, hi: u32) -> (r: Result<NodeId, Error>)
        requires old(self).wf(), old(self).room(5), old(self).valid(x),
        ensures
            final(self).wf(), final(self).grew(*old(self), 5),
            r is Ok <==> !old(self).dt(x).spec_is_complex(),
            r matches Ok(id) ==> final(self).valid(id) && final(self).sh(id) == old(self).sh(x)
                && final(self).dt(id) == old(self).dt(x),
            r matches Ok(id) ==> ({
                let g = *final(self);
                &&& g.node_is(id, Op::Where, seq![g.arg(id, 0), x, g.arg(id, 2)])
                &&& g.node_is(g.arg(id, 0), Op::CmpLt, seq![x, g.arg(id, 2)])
                &&& is_scalar_of(g, g.arg(id, 2), hi)
            }),
    {
        let c = self.scalar(x, hi);
        let ghost g1 = *self;
        let r = self.min(x, c);
        proof { lemma_scalar_kept(g1, *self, c, hi); }
        r
    }
}

} // verus!
