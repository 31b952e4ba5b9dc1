//! Exponential / logarithm family: base conversions of the exp2/log2 primitives, powers,
//! and the numerically-stable log1p/expm1/logaddexp/xlogy/logit/log_sigmoid.

use vstd::prelude::*;
use crate::error::Error;
use crate::graph::{Graph, NodeId, Op};
use crate::graph::ops::base::elementwise::float_or_complex;
use crate::graph::ops::nn::activation::{is_softplus_of, lemma_softplus_kept};
use crate::graph::ops::base::scalar::{ok_id, is_scalar_of, lemma_scalar_kept, F32_ONE, F32_ZERO};

verus! {

/// log2(e) as f32.
pub const F32_LOG2_E: u32 = 0x3fb8_aa3b;
/// ln(2) as f32.
pub const F32_LN_2: u32 = 0x3f31_7218;
/// log2(10) as f32.
pub const F32_LOG2_10: u32 = 0x4054_9a78;
/// 1 / log2(10) as f32.
pub const F32_INV_LOG2_10: u32 = 0x3e9a_209b;

/// Node `id` of `g` is `exp2(x * log2(e))`.
pub open spec fn is_exp_of(g: Graph, id: NodeId, x: NodeId) -> bool {
    let m = g.arg(id, 0);
    &&& g.node_is(id, Op::Exp2, seq![m])
    &&& g.node_is(m, Op::Mul, seq![x, g.arg(m, 1)])
    &&& is_scalar_of(g, g.arg(m, 1), F32_LOG2_E)
}

/// Node `id` of `g` is `log2(x) * ln(2)`.
pub open spec fn is_ln_of(g: Graph, id: NodeId, x: NodeId) -> bool {
    &&& g.node_is(id, Op::Mul, seq![g.arg(id, 0), g.arg(id, 1)])
    &&& g.node_is(g.arg(id, 0), Op::Log2, seq![x])
    &&& is_scalar_of(g, g.arg(id, 1), F32_LN_2)
}

/// Node `id` of `g` is `xlogy(x, y) = where(x == 0, 0, x * ln(y))`.
pub open spec fn is_xlogy_of(g: Graph, id: NodeId, x: NodeId, y: NodeId) -> bool {
    let z = g.arg(id, 1);
    let xly = g.arg(id, 2);
    &&& g.node_is(id, Op::Where, seq![g.arg(id, 0), z, xly])
    &&& g.node_is(g.arg(id, 0), Op::CmpEq, seq![x, z])
    &&& is_scalar_of(g, z, F32_ZERO)
    &&& g.node_is(xly, Op::Mul, seq![x, g.arg(xly, 1)])
    &&& is_ln_of(g, g.arg(xly, 1), y)
}

/// An `xlogy` node stays one as the graph grows.
pub proof fn lemma_xlogy_kept(g0: Graph, g1: Graph, id: NodeId, x: NodeId, y: NodeId)
    requires g0.wf(), is_xlogy_of(g0, id, x, y), g1.extends(g0),
    ensures is_xlogy_of(g1, id, x, y),
{
    g0.lemma_arg_kept(g1, id, 0);
    g0.lemma_arg_kept(g1, id, 1);
    g0.lemma_arg_kept(g1, id, 2);
    g0.lemma_arg_kept(g1, g0.arg(id, 2), 1);
    lemma_scalar_kept(g0, g1, g0.arg(id, 1), F32_ZERO);
    lemma_ln_kept(g0, g1, g0.arg(g0.arg(id, 2), 1), y);
}

/// Node `id` of `g` is `log_sigmoid(x) = -softplus(-x)`.
pub open spec fn is_log_sigmoid_of(g: Graph, id: NodeId, x: NodeId) -> bool {
    let sp = g.arg(id, 0);
    let nx = g.arg(g.arg(sp, 0), 0);
    &&& g.node_is(id, Op::Neg, seq![sp])
    &&& is_softplus_of(g, sp, nx)
    &&& g.node_is(nx, Op::Neg, seq![x])
}

/// A `log_sigmoid` node stays one as the graph grows.
pub proof fn lemma_log_sigmoid_kept(g0: Graph, g1: Graph, id: NodeId, x: NodeId)
    requires g0.wf(), is_log_sigmoid_of(g0, id, x), g1.extends(g0),
    ensures is_log_sigmoid_of(g1, id, x),
{
    let sp = g0.arg(id, 0);
    let nx = g0.arg(g0.arg(sp, 0), 0);
    g0.lemma_arg_kept(g1, id, 0);
    g0.lemma_arg_kept(g1, sp, 0);
    g0.lemma_arg_kept(g1, g0.arg(sp, 0), 0);
    lemma_softplus_kept(g0, g1, sp, nx);
}

/// An `exp` node stays one as the graph grows.
pub proof fn lemma_exp_kept(g0: Graph, g1: Graph, id: NodeId, x: NodeId)
    requires g0.wf(), is_exp_of(g0, id, x), g1.extends(g0),
    ensures is_exp_of(g1, id, x),
{
    let m = g0.arg(id, 0);
    assert(g1.nodes@[id.0 as int] == g0.nodes@[id.0 as int]);
    assert(g1.nodes@[m.0 as int] == g0.nodes@[m.0 as int]);
    g0.lemma_arg_valid(m, 1);
    lemma_scalar_kept(g0, g1, g0.arg(m, 1), F32_LOG2_E);
}

/// An `ln` node stays one as the graph grows.
pub proof fn lemma_ln_kept(g0: Graph, g1: Graph, id: NodeId, x: NodeId)
    requires g0.wf(), is_ln_of(g0, id, x), g1.extends(g0),
    ensures is_ln_of(g1, id, x),
{
    assert(g1.nodes@[id.0 as int] == g0.nodes@[id.0 as int]);
    assert(g1.nodes@[g0.arg(id, 0).0 as int] == g0.nodes@[g0.arg(id, 0).0 as int]);
    g0.lemma_arg_valid(id, 1);
    lemma_scalar_kept(g0, g1, g0.arg(id, 1), F32_LN_2);
}

/// Node `id` of `g` is `log1p(x)`: `where(u == 1, x, x * ln(u) / (u - 1 or 1))`, `u = x + 1`.
pub open spec fn is_log1p_of(g: Graph, id: NodeId, x: NodeId) -> bool {
    let eq = g.arg(id, 0);
    let ratio = g.arg(id, 2);
    let u = g.arg(eq, 0);
    let one = g.arg(eq, 1);
    let xl = g.arg(ratio, 0);
    let rs = g.arg(ratio, 1);
    let safe = g.arg(rs, 0);
    let d = g.arg(safe, 2);
    &&& g.node_is(id, Op::Where, seq![eq, x, ratio])
    &&& g.node_is(eq, Op::CmpEq, seq![u, one])
    &&& g.node_is(u, Op::Add, seq![x, one])
    &&& is_scalar_of(g, one, F32_ONE)
    &&& g.node_is(ratio, Op::Mul, seq![xl, rs])
    &&& g.node_is(xl, Op::Mul, seq![x, g.arg(xl, 1)])
    &&& is_ln_of(g, g.arg(xl, 1), u)
    &&& g.node_is(rs, Op::Recip, seq![safe])
    &&& g.node_is(safe, Op::Where, seq![eq, one, d])
    &&& g.node_is(d, Op::Add, seq![u, g.arg(d, 1)])
    &&& g.node_is(g.arg(d, 1), Op::Neg, seq![one])
}

/// A `log1p` node stays one as the graph grows.
pub proof fn lemma_log1p_kept(g0: Graph, g1: Graph, id: NodeId, x: NodeId)
    requires g0.wf(), is_log1p_of(g0, id, x), g1.extends(g0),
    ensures is_log1p_of(g1, id, x),
{
    let eq = g0.arg(id, 0);
    let ratio = g0.arg(id, 2);
    let xl = g0.arg(ratio, 0);
    let rs = g0.arg(ratio, 1);
    let safe = g0.arg(rs, 0);
    let d = g0.arg(safe, 2);
    assert(g1.nodes@[id.0 as int] == g0.nodes@[id.0 as int]);
    assert(g1.nodes@[eq.0 as int] == g0.nodes@[eq.0 as int]);
    assert(g1.nodes@[g0.arg(eq, 0).0 as int] == g0.nodes@[g0.arg(eq, 0).0 as int]);
    assert(g1.nodes@[ratio.0 as int] == g0.nodes@[ratio.0 as int]);
    assert(g1.nodes@[xl.0 as int] == g0.nodes@[xl.0 as int]);
    assert(g1.nodes@[rs.0 as int] == g0.nodes@[rs.0 as int]);
    assert(g1.nodes@[safe.0 as int] == g0.nodes@[safe.0 as int]);
    assert(g1.nodes@[d.0 as int] == g0.nodes@[d.0 as int]);
    assert(g1.nodes@[g0.arg(d, 1).0 as int] == g0.nodes@[g0.arg(d, 1).0 as int]);
    g0.lemma_arg_valid(eq, 1);
    lemma_scalar_kept(g0, g1, g0.arg(eq, 1), F32_ONE);
    lemma_ln_kept(g0, g1, g0.arg(xl, 1), g0.arg(eq, 0));
}

impl Graph {
    /// `exp(x) = exp2(x * log2(e))` (float or complex).
    pub fn exp(&mut self, x: NodeId) -> (id: NodeId)
        requires old(self).wf(), old(self).room(5), old(self).valid(x), float_or_complex(old(self).dt(x)),
        ensures
            final(self).wf(), final(self).grew(*old(self), 5),
            final(self).valid(id), final(self).sh(id) == old(self).sh(x), final(self).dt(id) == old(self).dt(x),
            is_exp_of(*final(self), id, x),
    {
        let s = self.scalar(x, F32_LOG2_E);
        let ghost g1 = *self;
        let xs = ok_id(self.mul(x, s));
        let r = self.exp2(xs);
        proof { lemma_scalar_kept(g1, *self, s, F32_LOG2_E); }
        r
    }

    /// `ln(x) = log2(x) * ln(2)` (float or complex).
    pub fn ln(&mut self, x: NodeId) -> (id: NodeId)
        requires old(self).wf(), old(self).room(5), old(self).valid(x), float_or_complex(old(self).dt(x)),
        ensures
            final(self).wf(), final(self).grew(*old(self), 5),
            final(self).valid(id), final(self).sh(id) == old(self).sh(x), final(self).dt(id) == old(self).dt(x),
            is_ln_of(*final(self), id, x),
    {
        let l = self.log2(x);
        let c = self.scalar(l, F32_LN_2);
        let ghost g1 = *self;
        let r = ok_id(self.mul(l, c));
        proof { lemma_scalar_kept(g1, *self, c, F32_LN_2); }
        r
    }

    /// `10^x = exp2(x * log2(10))` (float or complex).
    pub fn exp10(&mut self, x: NodeId) -> (id: NodeId)
        requires old(self).wf(), old(self).room(5), old(self).valid(x), float_or_complex(old(self).dt(x)),
        ensures
            final(self).wf(), final(self).grew(*old(self), 5),
            final(self).valid(id), final(self).sh(id) == old(self).sh(x), final(self).dt(id) == old(self).dt(x),
            final(self).node_is(id, Op::Exp2, seq![final(self).arg(id, 0)])
                && final(self).node_is(final(self).arg(id, 0), Op::Mul, seq![x, final(self).arg(final(self).arg(id, 0), 1)])
                && is_scalar_of(*final(self), final(self).arg(final(self).arg(id, 0), 1), F32_LOG2_10),
    {
        let c = self.scalar(x, F32_LOG2_10);
        let ghost g1 = *self;
        let xs = ok_id(self.mul(x, c));
        let r = self.exp2(xs);
        proof { lemma_scalar_kept(g1, *self, c, F32_LOG2_10); }
        r
    }

    /// `log10(x) = log2(x) / log2(10)` (float or complex).
    pub fn log10(&mut self, x: NodeId) -> (id: NodeId)
        requires old(self).wf(), old(self).room(5), old(self).valid(x), float_or_complex(old(self).dt(x)),
        ensures
            final(self).wf(), final(self).grew(*old(self), 5),
            final(self).valid(id), final(self).sh(id) == old(self).sh(x), final(self).dt(id) == old(self).dt(x),
            final(self).node_is(id, Op::Mul, seq![final(self).arg(id, 0), final(self).arg(id, 1)])
                && final(self).node_is(final(self).arg(id, 0), Op::Log2, seq![x])
                && is_scalar_of(*final(self), final(self).arg(id, 1), F32_INV_LOG2_10),
    {
        let l = self.log2(x);
        let c = self.scalar(l, F32_INV_LOG2_10);
        let ghost g1 = *self;
        let r = ok_id(self.mul(l, c));
        proof { lemma_scalar_kept(g1, *self, c, F32_INV_LOG2_10); }
        r
    }

    /// `a^b = exp2(b * log2(a))` for a positive base (float or complex).
    pub fn pow(&mut self, a: NodeId, b: NodeId) -> (r: Result<NodeId, Error>)
        requires
            old(self).wf(), old(self).room(3), old(self).valid(a), old(self).valid(b),
            float_or_complex(old(self).dt(a)),
        ensures
            final(self).wf(), final(self).grew(*old(self), 3),
            r is Ok <==> old(self).same_sd(a, b),
            r matches Ok(id) ==> final(self).valid(id) && final(self).sh(id) == old(self).sh(a)
                && final(self).dt(id) == old(self).dt(a),
            r matches Ok(id) ==> final(self).node_is(id, Op::Exp2, seq![final(self).arg(id, 0)])
                && final(self).node_is(final(self).arg(id, 0), Op::Mul, seq![b, final(self).arg(final(self).arg(id, 0), 1)])
                && final(self).node_is(final(self).arg(final(self).arg(id, 0), 1), Op::Log2, seq![a]),
    {
        let la = self.log2(a);
        let bl = self.mul(b, la)?;
        Ok(self.exp2(bl))
    }

    /// `log(1 + x)`, accurate near 0: `x*ln(u)/(u-1)` with `u = 1+x`, or `x` where `u` rounds to 1.
    pub fn log1p(&mut self, x: NodeId) -> (r: Result<NodeId, Error>)
        requires old(self).wf(), old(self).room(17), old(self).valid(x), !old(self).dt(x).spec_is_int(),
        ensures
            final(self).wf(), final(self).grew(*old(self), 17),
            r is Ok <==> old(self).dt(x).spec_is_float(),
            r matches Ok(id) ==> final(self).valid(id) && final(self).sh(id) == old(self).sh(x)
                && final(self).dt(id) == old(self).dt(x),
            r matches Ok(id) ==> is_log1p_of(*final(self), id, x),
    {
        let one = self.ones_like(x);
        let ghost g1 = *self;
        let u = self.add(x, one)?;
        let d = self.sub(u, one)?;
        let eq = self.cmp_eq(u, one)?;
        let safe = self.select(eq, one, d)?;
        let lu = self.ln(u);
        let ghost g2 = *self;
        let xl = self.mul(x, lu)?;
        let ratio = self.div(xl, safe)?;
        let r = self.select(eq, x, ratio);
        proof {
            lemma_scalar_kept(g1, *self, one, F32_ONE);
            lemma_ln_kept(g2, *self, lu, u);
        }
        r
    }

    /// `exp(x) - 1`, accurate near 0: `(u-1)*x/ln(u)` with `u = exp(x)`, or `x` where `u` rounds to 1.
    pub fn expm1(&mut self, x: NodeId) -> (r: Result<NodeId, Error>)
        requires old(self).wf(), old(self).room(21), old(self).valid(x), float_or_complex(old(self).dt(x)),
        ensures
            final(self).wf(), final(self).grew(*old(self), 21),
            r is Ok <==> old(self).dt(x).spec_is_float(),
            r matches Ok(id) ==> final(self).valid(id) && final(self).sh(id) == old(self).sh(x)
                && final(self).dt(id) == old(self).dt(x),
            r matches Ok(id) ==> ({
                let g = *final(self);
                let eq = g.arg(id, 0);
                let ratio = g.arg(id, 2);
                let u = g.arg(eq, 0);
                let one = g.arg(eq, 1);
                let ux = g.arg(ratio, 0);
                let safe = g.arg(g.arg(ratio, 1), 0);
                let um1 = g.arg(ux, 0);
                &&& g.node_is(id, Op::Where, seq![eq, x, ratio])
                &&& g.node_is(eq, Op::CmpEq, seq![u, one])
                &&& is_exp_of(g, u, x)
                &&& is_scalar_of(g, one, F32_ONE)
                &&& g.node_is(ratio, Op::Mul, seq![ux, g.arg(ratio, 1)])
                &&& g.node_is(g.arg(ratio, 1), Op::Recip, seq![safe])
                &&& g.node_is(ux, Op::Mul, seq![um1, x])
                &&& g.node_is(um1, Op::Add, seq![u, g.arg(um1, 1)])
                &&& g.node_is(g.arg(um1, 1), Op::Neg, seq![one])
                &&& g.node_is(safe, Op::Where, seq![eq, one, g.arg(safe, 2)])
                &&& is_ln_of(g, g.arg(safe, 2), u)
            }),
    {
        let one = self.ones_like(x);
        let ghost g1 = *self;
        let u = self.exp(x);
        let ghost g2 = *self;
        let um1 = self.sub(u, one)?;
        let eq = self.cmp_eq(u, one)?;
        let lu = self.ln(u);
        let ghost g3 = *self;
        let safe = self.select(eq, one, lu)?;
        let ux = self.mul(um1, x)?;
        let ratio = self.div(ux, safe)?;
        let r = self.select(eq, x, ratio);
        proof {
            lemma_scalar_kept(g1, *self, one, F32_ONE);
            lemma_exp_kept(g2, *self, u, x);
            lemma_ln_kept(g3, *self, lu, u);
        }
        r
    }

    /// `log(exp(a) + exp(b)) = max(a,b) + log1p(exp(-|a-b|))`.
    pub fn logaddexp(&mut self, a: NodeId, b: NodeId) -> (r: Result<NodeId, Error>)
        requires
            old(self).wf(), old(self).room(29), old(self).valid(a), old(self).valid(b),
            old(self).same_sd(a, b) && old(self).dt(a).spec_is_numeric() ==> old(self).dt(a).spec_is_float(),
        ensures
            final(self).wf(), final(self).grew(*old(self), 29),
            r is Ok <==> old(self).same_sd(a, b) && old(self).dt(a).spec_is_numeric(),
            r matches Ok(id) ==> final(self).valid(id) && final(self).sh(id) == old(self).sh(a)
                && final(self).dt(id) == old(self).dt(a),
            r matches Ok(id) ==> ({
                let g = *final(self);
                let l = g.arg(id, 1);
                let e = g.arg(g.arg(g.arg(l, 0), 0), 0);
                let nad = g.arg(g.arg(e, 0), 0);
                let ad = g.arg(nad, 0);
                let d = g.arg(ad, 0);
                &&& g.node_is(id, Op::Add, seq![g.arg(id, 0), l])
                &&& g.node_is(g.arg(id, 0), Op::Max, seq![a, b])
                &&& is_log1p_of(g, l, e)
                &&& is_exp_of(g, e, nad)
                &&& g.node_is(nad, Op::Neg, seq![ad])
                &&& g.node_is(ad, Op::Max, seq![d, g.arg(ad, 1)])
                &&& g.node_is(g.arg(ad, 1), Op::Neg, seq![d])
                &&& g.node_is(d, Op::Add, seq![a, g.arg(d, 1)])
                &&& g.node_is(g.arg(d, 1), Op::Neg, seq![b])
            }),
    {
        let m = self.max(a, b)?;
        let d = self.sub(a, b)?;
        let ad = self.abs(d);
        let nad = self.neg(ad);
        let e = self.exp(nad);
        let ghost g1 = *self;
        let l = self.log1p(e)?;
        let ghost g2 = *self;
        let r = self.add(m, l);
        proof {
            lemma_exp_kept(g1, *self, e, nad);
            lemma_log1p_kept(g2, *self, l, e);
        }
        r
    }

    /// `x * log(y)`, 0 where `x == 0`.
    pub fn xlogy(&mut self, x: NodeId, y: NodeId) -> (r: Result<NodeId, Error>)
        requires
            old(self).wf(), old(self).room(11), old(self).valid(x), old(self).valid(y),
            !old(self).dt(x).spec_is_complex() ==> float_or_complex(old(self).dt(y)),
        ensures
            final(self).wf(), final(self).grew(*old(self), 11),
            r is Ok <==> !old(self).dt(x).spec_is_complex() && old(self).same_sd(x, y),
            r matches Ok(id) ==> final(self).valid(id) && final(self).sh(id) == old(self).sh(x)
                && final(self).dt(id) == old(self).dt(x),
            r matches Ok(id) ==> is_xlogy_of(*final(self), id, x, y),
    {
        let z = self.zeros_like(x);
        let ghost g1 = *self;
        let eq = self.cmp_eq(x, z)?;
        let ly = self.ln(y);
        let ghost g2 = *self;
        let xly = self.mul(x, ly)?;
        let r = self.select(eq, z, xly);
        proof {
            lemma_scalar_kept(g1, *self, z, F32_ZERO);
            lemma_ln_kept(g2, *self, ly, y);
        }
        r
    }

    /// Logit `log(x) - log(1 - x)` (float or complex).
    pub fn logit(&mut self, x: NodeId) -> (r: Result<NodeId, Error>)
        requires old(self).wf(), old(self).room(17), old(self).valid(x), float_or_complex(old(self).dt(x)),
        ensures
            final(self).wf(), final(self).grew(*old(self), 17),
            r is Ok,
            r matches Ok(id) ==> final(self).valid(id) && final(self).sh(id) == old(self).sh(x)
                && final(self).dt(id) == old(self).dt(x),
            r matches Ok(id) ==> ({
                let g = *final(self);
                let lx = g.arg(id, 0);
                let lo = g.arg(g.arg(id, 1), 0);
                let omx = g.arg(g.arg(lo, 0), 0);
                &&& g.node_is(id, Op::Add, seq![lx, g.arg(id, 1)])
                &&& g.node_is(g.arg(id, 1), Op::Neg, seq![lo])
                &&& is_ln_of(g, lx, x)
                &&& is_ln_of(g, lo, omx)
                &&& g.node_is(omx, Op::Add, seq![g.arg(omx, 0), g.arg(omx, 1)])
                &&& is_scalar_of(g, g.arg(omx, 0), F32_ONE)
                &&& g.node_is(g.arg(omx, 1), Op::Neg, seq![x])
            }),
    {
        let one = self.ones_like(x);
        let ghost g1 = *self;
        let omx = self.sub(one, x)?;
        let lx = self.ln(x);
        let ghost g2 = *self;
        let lo = self.ln(omx);
        let ghost g3 = *self;
        let r = self.sub(lx, lo);
        proof {
            lemma_scalar_kept(g1, *self, one, F32_ONE);
            lemma_ln_kept(g2, *self, lx, x);
            lemma_ln_kept(g3, *self, lo, omx);
        }
        r
    }

    /// `log(sigmoid(x)) = -softplus(-x)` (float).
    pub fn log_sigmoid(&mut self, x: NodeId) -> (r: Result<NodeId, Error>)
        requires old(self).wf(), old(self).room(24), old(self).valid(x), old(self).dt(x).spec_is_float(),
        ensures
            final(self).wf(), final(self).grew(*old(self), 24),
            r is Ok,
            r matches Ok(id) ==> final(self).valid(id) && final(self).sh(id) == old(self).sh(x)
                && final(self).dt(id) == old(self).dt(x),
            r matches Ok(id) ==> is_log_sigmoid_of(*final(self), id, x),
    {
        let nx = self.neg(x);
        let sp = self.softplus(nx);
        let ghost g1 = *self;
        let res = self.neg(sp);
        proof { lemma_softplus_kept(g1, *self, sp, nx); }
        Ok(res)
    }
}

} // verus!
