//! Trigonometric, hyperbolic, and inverse functions, built on the `sin` primitive.

use vstd::prelude::*;
use crate::error::Error;
use crate::graph::{Graph, NodeId, Op};
use crate::graph::ops::base::elementwise::float_or_complex;
use crate::graph::ops::base::scalar::{ok_id, is_scalar_of, lemma_scalar_kept, F32_ONE, F32_HALF, F32_TWO, F32_ZERO};
use crate::graph::ops::base::explog::{is_exp_of, lemma_exp_kept, is_ln_of, lemma_ln_kept};
use crate::graph::ops::nn::activation::{is_sigmoid_of, lemma_sigmoid_kept};
use crate::graph::ops::base::elementwise::{is_sign_of, lemma_sign_kept};
use crate::graph::ops::base::special::{is_horner, lemma_horner_kept};

verus! {

/// pi/2 as f32.
pub const F32_FRAC_PI_2: u32 = 0x3fc9_0fdb;
/// pi as f32.
pub const F32_PI: u32 = 0x4049_0fdb;
/// Minimax coefficients of atan on [0, 1], highest degree first.
pub const F32_ATAN_C4: u32 = 0x3caa_ae5f;
pub const F32_ATAN_C3: u32 = 0xbdae_5a36;
pub const F32_ATAN_C2: u32 = 0x3e38_76e2;
pub const F32_ATAN_C1: u32 = 0xbea9_1d04;
pub const F32_ATAN_C0: u32 = 0x3f7f_f738;

/// The `atan` minimax polynomial on `[0, 1]` in `z^2`, highest degree first.
pub open spec fn atan_coeffs() -> Seq<u32> {
    seq![F32_ATAN_C4, F32_ATAN_C3, F32_ATAN_C2, F32_ATAN_C1, F32_ATAN_C0]
}

/// Node `id` of `g` is `atan(x) = sign(x) * where(|x| > 1, pi/2 - p(z) z, p(z) z)`, with
/// `z = where(|x| > 1, 1/|x|, |x|)` and `p` the polynomial `atan_coeffs` in `z^2`.
pub open spec fn is_atan_of(g: Graph, id: NodeId, x: NodeId) -> bool {
    let s = g.arg(id, 0);
    let r = g.arg(id, 1);
    let flip = g.arg(r, 0);
    let reduced = g.arg(r, 1);
    let pz = g.arg(r, 2);
    let a = g.arg(flip, 1);
    let poly = g.arg(pz, 0);
    let z = g.arg(pz, 1);
    let z2 = g.arg(g.arg(poly, 0), 1);
    &&& g.node_is(id, Op::Mul, seq![s, r])
    &&& is_sign_of(g, s, x)
    &&& g.node_is(r, Op::Where, seq![flip, reduced, pz])
    &&& g.node_is(flip, Op::CmpLt, seq![g.arg(flip, 0), a])
    &&& is_scalar_of(g, g.arg(flip, 0), F32_ONE)
    &&& g.node_is(a, Op::Max, seq![x, g.arg(a, 1)])
    &&& g.node_is(g.arg(a, 1), Op::Neg, seq![x])
    &&& g.node_is(z, Op::Where, seq![flip, g.arg(z, 1), a])
    &&& g.node_is(g.arg(z, 1), Op::Recip, seq![a])
    &&& g.node_is(z2, Op::Mul, seq![z, z])
    &&& is_horner(g, poly, z2, atan_coeffs())
    &&& g.node_is(pz, Op::Mul, seq![poly, z])
    &&& g.node_is(reduced, Op::Add, seq![g.arg(reduced, 0), g.arg(reduced, 1)])
    &&& is_scalar_of(g, g.arg(reduced, 0), F32_FRAC_PI_2)
    &&& g.node_is(g.arg(reduced, 1), Op::Neg, seq![pz])
}

/// An `atan` node stays one as the graph grows.
pub proof fn lemma_atan_kept(g0: Graph, g1: Graph, id: NodeId, x: NodeId)
    requires g0.wf(), is_atan_of(g0, id, x), g1.extends(g0),
    ensures is_atan_of(g1, id, x),
{
    let r = g0.arg(id, 1);
    let flip = g0.arg(r, 0);
    let reduced = g0.arg(r, 1);
    let pz = g0.arg(r, 2);
    let a = g0.arg(flip, 1);
    let poly = g0.arg(pz, 0);
    let z = g0.arg(pz, 1);
    g0.lemma_arg_kept(g1, id, 0);
    g0.lemma_arg_kept(g1, id, 1);
    g0.lemma_arg_kept(g1, r, 0);
    g0.lemma_arg_kept(g1, r, 1);
    g0.lemma_arg_kept(g1, r, 2);
    g0.lemma_arg_kept(g1, flip, 0);
    g0.lemma_arg_kept(g1, flip, 1);
    g0.lemma_arg_kept(g1, a, 1);
    g0.lemma_arg_kept(g1, pz, 0);
    g0.lemma_arg_kept(g1, pz, 1);
    g0.lemma_arg_kept(g1, z, 1);
    g0.lemma_arg_kept(g1, poly, 0);
    g0.lemma_arg_kept(g1, g0.arg(poly, 0), 1);
    g0.lemma_arg_kept(g1, reduced, 0);
    g0.lemma_arg_kept(g1, reduced, 1);
    lemma_sign_kept(g0, g1, g0.arg(id, 0), x);
    lemma_scalar_kept(g0, g1, g0.arg(flip, 0), F32_ONE);
    lemma_scalar_kept(g0, g1, g0.arg(reduced, 0), F32_FRAC_PI_2);
    lemma_horner_kept(g0, g1, poly, g0.arg(g0.arg(poly, 0), 1), atan_coeffs());
}

/// Node `id` of `g` is `asin(x) = atan(x / sqrt(1 - x^2))`.
pub open spec fn is_asin_of(g: Graph, id: NodeId, x: NodeId) -> bool {
    let q = g.arg(g.arg(g.arg(g.arg(id, 0), 0), 0), 1);
    let rr = g.arg(q, 1);
    let r = g.arg(rr, 0);
    let d = g.arg(r, 0);
    let x2 = g.arg(g.arg(d, 1), 0);
    &&& is_atan_of(g, id, q)
    &&& g.node_is(q, Op::Mul, seq![x, rr])
    &&& g.node_is(rr, Op::Recip, seq![r])
    &&& g.node_is(r, Op::Sqrt, seq![d])
    &&& g.node_is(d, Op::Add, seq![g.arg(d, 0), g.arg(d, 1)])
    &&& is_scalar_of(g, g.arg(d, 0), F32_ONE)
    &&& g.node_is(g.arg(d, 1), Op::Neg, seq![x2])
    &&& g.node_is(x2, Op::Mul, seq![x, x])
}

/// An `asin` node stays one as the graph grows.
pub proof fn lemma_asin_kept(g0: Graph, g1: Graph, id: NodeId, x: NodeId)
    requires g0.wf(), is_asin_of(g0, id, x), g1.extends(g0),
    ensures is_asin_of(g1, id, x),
{
    let q = g0.arg(g0.arg(g0.arg(g0.arg(id, 0), 0), 0), 1);
    let rr = g0.arg(q, 1);
    let r = g0.arg(rr, 0);
    let d = g0.arg(r, 0);
    lemma_atan_kept(g0, g1, id, q);
    g0.lemma_arg_kept(g1, q, 1);
    g0.lemma_arg_kept(g1, rr, 0);
    g0.lemma_arg_kept(g1, r, 0);
    g0.lemma_arg_kept(g1, d, 0);
    g0.lemma_arg_kept(g1, d, 1);
    g0.lemma_arg_kept(g1, g0.arg(d, 1), 0);
    lemma_scalar_kept(g0, g1, g0.arg(d, 0), F32_ONE);
}

/// The input `x` of a `tanh` node `t = 2 sigmoid(2x) - 1`.
pub open spec fn tanh_input(g: Graph, t: NodeId) -> NodeId {
    let s = g.arg(g.arg(t, 0), 0);
    let e = g.arg(g.arg(s, 0), 1);
    let x2 = g.arg(g.arg(g.arg(e, 0), 0), 0);
    g.arg(x2, 0)
}

/// Node `id` of `g` is `tanh(x) = 2 sigmoid(2x) - 1`.
pub open spec fn is_tanh_of(g: Graph, id: NodeId, x: NodeId) -> bool {
    let s2 = g.arg(id, 0);
    let s = g.arg(s2, 0);
    let x2 = g.arg(g.arg(g.arg(g.arg(g.arg(s, 0), 1), 0), 0), 0);
    &&& g.node_is(id, Op::Add, seq![s2, g.arg(id, 1)])
    &&& g.node_is(g.arg(id, 1), Op::Neg, seq![g.arg(g.arg(id, 1), 0)])
    &&& is_scalar_of(g, g.arg(g.arg(id, 1), 0), F32_ONE)
    &&& g.node_is(s2, Op::Mul, seq![s, g.arg(s2, 1)])
    &&& is_scalar_of(g, g.arg(s2, 1), F32_TWO)
    &&& is_sigmoid_of(g, s, x2)
    &&& g.node_is(x2, Op::Mul, seq![x, g.arg(x2, 1)])
    &&& is_scalar_of(g, g.arg(x2, 1), F32_TWO)
}

/// A `tanh` node stays one as the graph grows.
pub proof fn lemma_tanh_kept(g0: Graph, g1: Graph, id: NodeId, x: NodeId)
    requires g0.wf(), is_tanh_of(g0, id, x), g1.extends(g0),
    ensures is_tanh_of(g1, id, x),
{
    let s2 = g0.arg(id, 0);
    let s = g0.arg(s2, 0);
    let x2 = g0.arg(g0.arg(g0.arg(g0.arg(g0.arg(s, 0), 1), 0), 0), 0);
    g0.lemma_arg_kept(g1, id, 0);
    g0.lemma_arg_kept(g1, id, 1);
    g0.lemma_arg_kept(g1, g0.arg(id, 1), 0);
    g0.lemma_arg_kept(g1, s2, 0);
    g0.lemma_arg_kept(g1, s2, 1);
    g0.lemma_arg_kept(g1, x2, 1);
    lemma_scalar_kept(g0, g1, g0.arg(g0.arg(id, 1), 0), F32_ONE);
    lemma_scalar_kept(g0, g1, g0.arg(s2, 1), F32_TWO);
    lemma_scalar_kept(g0, g1, g0.arg(x2, 1), F32_TWO);
    lemma_sigmoid_kept(g0, g1, s, x2);
}

/// Node `id` of `g` is `cos(x) = sin(x + pi/2)`.
pub open spec fn is_cos_of(g: Graph, id: NodeId, x: NodeId) -> bool {
    let a = g.arg(id, 0);
    &&& g.node_is(id, Op::Sin, seq![a])
    &&& g.node_is(a, Op::Add, seq![x, g.arg(a, 1)])
    &&& is_scalar_of(g, g.arg(a, 1), F32_FRAC_PI_2)
}

/// A `cos` node stays one as the graph grows.
pub proof fn lemma_cos_kept(g0: Graph, g1: Graph, id: NodeId, x: NodeId)
    requires g0.wf(), is_cos_of(g0, id, x), g1.extends(g0),
    ensures is_cos_of(g1, id, x),
{
    g0.lemma_arg_kept(g1, id, 0);
    g0.lemma_arg_kept(g1, g0.arg(id, 0), 1);
    lemma_scalar_kept(g0, g1, g0.arg(g0.arg(id, 0), 1), F32_FRAC_PI_2);
}

impl Graph {
    /// `sin(a)` (float).
    pub fn sin(&mut self, a: NodeId) -> (id: NodeId)
        requires old(self).wf(), old(self).room(1), old(self).valid(a), old(self).dt(a).spec_is_float(),
        ensures
            final(self).wf(),
            final(self).pushed(*old(self), id, Op::Sin, seq![a]),
            final(self).sh(id) == old(self).sh(a), final(self).dt(id) == old(self).dt(a),
    {
        self.push_un(Op::Sin, a)
    }

    /// `cos(x) = sin(x + pi/2)` (float).
    pub fn cos(&mut self, x: NodeId) -> (id: NodeId)
        requires old(self).wf(), old(self).room(5), old(self).valid(x), old(self).dt(x).spec_is_float(),
        ensures
            final(self).wf(), final(self).grew(*old(self), 5),
            final(self).valid(id), final(self).sh(id) == old(self).sh(x), final(self).dt(id) == old(self).dt(x),
            is_cos_of(*final(self), id, x),
    {
        let hp = self.scalar(x, F32_FRAC_PI_2);
        let ghost g1 = *self;
        let arg = ok_id(self.add(x, hp));
        let r = self.sin(arg);
        proof { lemma_scalar_kept(g1, *self, hp, F32_FRAC_PI_2); }
        r
    }

    /// `tan(x) = sin(x) / cos(x)` (float).
    pub fn tan(&mut self, x: NodeId) -> (id: NodeId)
        requires old(self).wf(), old(self).room(8), old(self).valid(x), old(self).dt(x).spec_is_float(),
        ensures
            final(self).wf(), final(self).grew(*old(self), 8),
            final(self).valid(id), final(self).sh(id) == old(self).sh(x), final(self).dt(id) == old(self).dt(x),
            final(self).node_is(id, Op::Mul, seq![final(self).arg(id, 0), final(self).arg(id, 1)])
                && final(self).node_is(final(self).arg(id, 0), Op::Sin, seq![x])
                && final(self).node_is(final(self).arg(id, 1), Op::Recip, seq![final(self).arg(final(self).arg(id, 1), 0)])
                && is_cos_of(*final(self), final(self).arg(final(self).arg(id, 1), 0), x),
    {
        let s = self.sin(x);
        let c = self.cos(x);
        let ghost g1 = *self;
        let r = ok_id(self.div(s, c));
        proof { lemma_cos_kept(g1, *self, c, x); }
        r
    }

    /// `sinh(x) = (e^x - e^-x) / 2` (float or complex).
    pub fn sinh(&mut self, x: NodeId) -> (id: NodeId)
        requires old(self).wf(), old(self).room(17), old(self).valid(x), float_or_complex(old(self).dt(x)),
        ensures
            final(self).wf(), final(self).grew(*old(self), 17),
            final(self).valid(id), final(self).sh(id) == old(self).sh(x), final(self).dt(id) == old(self).dt(x),
            ({
                let g = *final(self);
                let d = g.arg(id, 0);
                let en = g.arg(g.arg(d, 1), 0);
                &&& g.node_is(id, Op::Mul, seq![d, g.arg(id, 1)])
                &&& is_scalar_of(g, g.arg(id, 1), F32_HALF)
                &&& g.node_is(d, Op::Add, seq![g.arg(d, 0), g.arg(d, 1)])
                &&& is_exp_of(g, g.arg(d, 0), x)
                &&& g.node_is(g.arg(d, 1), Op::Neg, seq![en])
                &&& is_exp_of(g, en, g.arg(g.arg(en, 0), 0))
                &&& g.node_is(g.arg(g.arg(en, 0), 0), Op::Neg, seq![x])
            }),
    {
        let e = self.exp(x);
        let ghost g1 = *self;
        let nx = self.neg(x);
        let en = self.exp(nx);
        let ghost g2 = *self;
        let d = ok_id(self.sub(e, en));
        let half = self.scalar(x, F32_HALF);
        let ghost g3 = *self;
        let r = ok_id(self.mul(d, half));
        proof {
            lemma_exp_kept(g1, *self, e, x);
            lemma_exp_kept(g2, *self, en, nx);
            lemma_scalar_kept(g3, *self, half, F32_HALF);
        }
        r
    }

    /// `cosh(x) = (e^x + e^-x) / 2` (float or complex).
    pub fn cosh(&mut self, x: NodeId) -> (id: NodeId)
        requires old(self).wf(), old(self).room(16), old(self).valid(x), float_or_complex(old(self).dt(x)),
        ensures
            final(self).wf(), final(self).grew(*old(self), 16),
            final(self).valid(id), final(self).sh(id) == old(self).sh(x), final(self).dt(id) == old(self).dt(x),
            ({
                let g = *final(self);
                let d = g.arg(id, 0);
                let en = g.arg(d, 1);
                &&& g.node_is(id, Op::Mul, seq![d, g.arg(id, 1)])
                &&& is_scalar_of(g, g.arg(id, 1), F32_HALF)
                &&& g.node_is(d, Op::Add, seq![g.arg(d, 0), en])
                &&& is_exp_of(g, g.arg(d, 0), x)
                &&& is_exp_of(g, en, g.arg(g.arg(en, 0), 0))
                &&& g.node_is(g.arg(g.arg(en, 0), 0), Op::Neg, seq![x])
            }),
    {
        let e = self.exp(x);
        let ghost g1 = *self;
        let nx = self.neg(x);
        let en = self.exp(nx);
        let ghost g2 = *self;
        let d = ok_id(self.add(e, en));
        let half = self.scalar(x, F32_HALF);
        let ghost g3 = *self;
        let r = ok_id(self.mul(d, half));
        proof {
            lemma_exp_kept(g1, *self, e, x);
            lemma_exp_kept(g2, *self, en, nx);
            lemma_scalar_kept(g3, *self, half, F32_HALF);
        }
        r
    }

    /// `tanh(x) = 2 * sigmoid(2x) - 1` (float or complex).
    pub fn tanh(&mut self, x: NodeId) -> (id: NodeId)
        requires old(self).wf(), old(self).room(24), old(self).valid(x), float_or_complex(old(self).dt(x)),
        ensures
            final(self).wf(), final(self).grew(*old(self), 24),
            final(self).valid(id), final(self).sh(id) == old(self).sh(x), final(self).dt(id) == old(self).dt(x),
            is_tanh_of(*final(self), id, x),
    {
        let two = self.scalar(x, F32_TWO);
        let ghost g1 = *self;
        let x2 = ok_id(self.mul(x, two));
        let s = self.sigmoid(x2);
        let ghost g2 = *self;
        let two2 = self.scalar(x, F32_TWO);
        let ghost g3 = *self;
        let s2 = ok_id(self.mul(s, two2));
        let one = self.scalar(x, F32_ONE);
        let ghost g4 = *self;
        let r = ok_id(self.sub(s2, one));
        proof {
            lemma_scalar_kept(g1, *self, two, F32_TWO);
            lemma_sigmoid_kept(g2, *self, s, x2);
            lemma_scalar_kept(g3, *self, two2, F32_TWO);
            lemma_scalar_kept(g4, *self, one, F32_ONE);
        }
        r
    }

    /// `asinh(x) = ln(x + sqrt(x^2 + 1))` (float or complex).
    pub fn asinh(&mut self, x: NodeId) -> (id: NodeId)
        requires old(self).wf(), old(self).room(12), old(self).valid(x), float_or_complex(old(self).dt(x)),
        ensures
            final(self).wf(), final(self).grew(*old(self), 12),
            final(self).valid(id), final(self).sh(id) == old(self).sh(x), final(self).dt(id) == old(self).dt(x),
            ({
                let g = *final(self);
                let arg = g.arg(g.arg(id, 0), 0);
                let r = g.arg(arg, 1);
                let s = g.arg(r, 0);
                let x2 = g.arg(s, 0);
                let one = g.arg(s, 1);
                &&& is_ln_of(g, id, arg)
                &&& g.node_is(arg, Op::Add, seq![x, r])
                &&& g.node_is(r, Op::Sqrt, seq![s])
                &&& g.node_is(s, Op::Add, seq![x2, one])
                &&& is_scalar_of(g, one, F32_ONE)
                &&& g.node_is(x2, Op::Mul, seq![x, x])
            }),
    {
        let x2 = self.square(x);
        let one = self.scalar(x, F32_ONE);
        let ghost g1 = *self;
        let s = ok_id(self.add(x2, one));
        let r = self.sqrt(s);
        let arg = ok_id(self.add(x, r));
        let l = self.ln(arg);
        proof { lemma_scalar_kept(g1, *self, one, F32_ONE); }
        l
    }

    /// `acosh(x) = ln(x + sqrt(x^2 - 1))` (float or complex).
    pub fn acosh(&mut self, x: NodeId) -> (id: NodeId)
        requires old(self).wf(), old(self).room(13), old(self).valid(x), float_or_complex(old(self).dt(x)),
        ensures
            final(self).wf(), final(self).grew(*old(self), 13),
            final(self).valid(id), final(self).sh(id) == old(self).sh(x), final(self).dt(id) == old(self).dt(x),
            ({
                let g = *final(self);
                let arg = g.arg(g.arg(id, 0), 0);
                let r = g.arg(arg, 1);
                let s = g.arg(r, 0);
                let x2 = g.arg(s, 0);
                let one = g.arg(g.arg(s, 1), 0);
                &&& is_ln_of(g, id, arg)
                &&& g.node_is(arg, Op::Add, seq![x, r])
                &&& g.node_is(r, Op::Sqrt, seq![s])
                &&& g.node_is(s, Op::Add, seq![x2, g.arg(s, 1)])
                &&& g.node_is(g.arg(s, 1), Op::Neg, seq![one])
                &&& is_scalar_of(g, one, F32_ONE)
                &&& g.node_is(x2, Op::Mul, seq![x, x])
            }),
    {
        let x2 = self.square(x);
        let one = self.scalar(x, F32_ONE);
        let ghost g1 = *self;
        let s = ok_id(self.sub(x2, one));
        let r = self.sqrt(s);
        let arg = ok_id(self.add(x, r));
        let l = self.ln(arg);
        proof { lemma_scalar_kept(g1, *self, one, F32_ONE); }
        l
    }

    /// `atanh(x) = ln((1 + x) / (1 - x)) / 2` (float or complex).
    pub fn atanh(&mut self, x: NodeId) -> (id: NodeId)
        requires old(self).wf(), old(self).room(17), old(self).valid(x), float_or_complex(old(self).dt(x)),
        ensures
            final(self).wf(), final(self).grew(*old(self), 17),
            final(self).valid(id), final(self).sh(id) == old(self).sh(x), final(self).dt(id) == old(self).dt(x),
            ({
                let g = *final(self);
                let l = g.arg(id, 0);
                let q = g.arg(g.arg(l, 0), 0);
                let num = g.arg(q, 0);
                let den = g.arg(g.arg(q, 1), 0);
                let one = g.arg(num, 0);
                &&& g.node_is(id, Op::Mul, seq![l, g.arg(id, 1)])
                &&& is_scalar_of(g, g.arg(id, 1), F32_HALF)
                &&& is_ln_of(g, l, q)
                &&& g.node_is(q, Op::Mul, seq![num, g.arg(q, 1)])
                &&& g.node_is(g.arg(q, 1), Op::Recip, seq![den])
                &&& g.node_is(num, Op::Add, seq![one, x])
                &&& is_scalar_of(g, one, F32_ONE)
                &&& g.node_is(den, Op::Add, seq![one, g.arg(den, 1)])
                &&& g.node_is(g.arg(den, 1), Op::Neg, seq![x])
            }),
    {
        let one = self.scalar(x, F32_ONE);
        let ghost g1 = *self;
        let num = ok_id(self.add(one, x));
        let den = ok_id(self.sub(one, x));
        let q = ok_id(self.div(num, den));
        let l = self.ln(q);
        let ghost g2 = *self;
        let half = self.scalar(x, F32_HALF);
        let ghost g3 = *self;
        let r = ok_id(self.mul(l, half));
        proof {
            lemma_scalar_kept(g1, *self, one, F32_ONE);
            lemma_ln_kept(g2, *self, l, q);
            lemma_scalar_kept(g3, *self, half, F32_HALF);
        }
        r
    }

    /// `atan(x)`: minimax polynomial on `|x| <= 1`, reduced by `atan(x) = sign(x)*pi/2 - atan(1/x)`
    /// beyond (float).
    #[verifier::rlimit(40)]
    pub fn atan(&mut self, x: NodeId) -> (id: NodeId)
        requires old(self).wf(), old(self).room(56), old(self).valid(x), old(self).dt(x).spec_is_float(),
        ensures
            final(self).wf(), final(self).grew(*old(self), 56),
            final(self).valid(id), final(self).sh(id) == old(self).sh(x), final(self).dt(id) == old(self).dt(x),
            is_atan_of(*final(self), id, x),
    {
        let a = self.abs(x);
        let ghost g1 = *self;
        let one = self.scalar(a, F32_ONE);
        let ghost g2 = *self;
        let flip = ok_id(self.cmp_lt(one, a));
        let inv = self.recip(a);
        let z = ok_id(self.select(flip, inv, a));
        let z2 = self.square(z);
        let cs: Vec<u32> = vec![F32_ATAN_C4, F32_ATAN_C3, F32_ATAN_C2, F32_ATAN_C1, F32_ATAN_C0];
        assert(cs@ =~= atan_coeffs());
        let poly = self.horner(z2, cs.as_slice());
        let ghost g3 = *self;
        let pz = ok_id(self.mul(poly, z));
        let hp = self.scalar(pz, F32_FRAC_PI_2);
        let ghost g4 = *self;
        let reduced = ok_id(self.sub(hp, pz));
        let r = ok_id(self.select(flip, reduced, pz));
        let s = self.sign(x);
        let ghost g5 = *self;
        let id = ok_id(self.mul(s, r));
        proof {
            lemma_scalar_kept(g2, *self, one, F32_ONE);
            lemma_horner_kept(g3, *self, poly, z2, atan_coeffs());
            lemma_scalar_kept(g4, *self, hp, F32_FRAC_PI_2);
            lemma_sign_kept(g5, *self, s, x);
        }
        id
    }

    /// `asin(x) = atan(x / sqrt(1 - x^2))` (float).
    pub fn asin(&mut self, x: NodeId) -> (id: NodeId)
        requires old(self).wf(), old(self).room(65), old(self).valid(x), old(self).dt(x).spec_is_float(),
        ensures
            final(self).wf(), final(self).grew(*old(self), 65),
            final(self).valid(id), final(self).sh(id) == old(self).sh(x), final(self).dt(id) == old(self).dt(x),
            is_asin_of(*final(self), id, x),
    {
        let x2 = self.square(x);
        let one = self.scalar(x2, F32_ONE);
        let ghost g1 = *self;
        let d = ok_id(self.sub(one, x2));
        let r = self.sqrt(d);
        let q = ok_id(self.div(x, r));
        let id = self.atan(q);
        proof { lemma_scalar_kept(g1, *self, one, F32_ONE); }
        id
    }

    /// `acos(x) = pi/2 - asin(x)` (float).
    pub fn acos(&mut self, x: NodeId) -> (id: NodeId)
        requires old(self).wf(), old(self).room(70), old(self).valid(x), old(self).dt(x).spec_is_float(),
        ensures
            final(self).wf(), final(self).grew(*old(self), 70),
            final(self).valid(id), final(self).sh(id) == old(self).sh(x), final(self).dt(id) == old(self).dt(x),
            final(self).node_is(id, Op::Add, seq![final(self).arg(id, 0), final(self).arg(id, 1)])
                && is_scalar_of(*final(self), final(self).arg(id, 0), F32_FRAC_PI_2)
                && final(self).node_is(final(self).arg(id, 1), Op::Neg, seq![final(self).arg(final(self).arg(id, 1), 0)])
                && is_asin_of(*final(self), final(self).arg(final(self).arg(id, 1), 0), x),
    {
        let a = self.asin(x);
        let ghost g1 = *self;
        let hp = self.scalar(a, F32_FRAC_PI_2);
        let ghost g2 = *self;
        let id = ok_id(self.sub(hp, a));
        proof {
            lemma_asin_kept(g1, *self, a, x);
            lemma_scalar_kept(g2, *self, hp, F32_FRAC_PI_2);
        }
        id
    }

    /// Quadrant-correct `atan2(y, x) = atan(y/x) + (x < 0 ? +-pi : 0)`.
    pub fn atan2(&mut self, y: NodeId, x: NodeId) -> (r: Result<NodeId, Error>)
        requires
            old(self).wf(), old(self).room(73), old(self).valid(y), old(self).valid(x),
            float_or_complex(old(self).dt(x)),
            old(self).same_sd(y, x) ==> old(self).dt(x).spec_is_float(),
        ensures
            final(self).wf(), final(self).grew(*old(self), 73),
            r is Ok <==> old(self).same_sd(y, x),
            r matches Ok(id) ==> final(self).valid(id) && final(self).sh(id) == old(self).sh(x)
                && final(self).dt(id) == old(self).dt(x),
    {
        let ratio = self.div(y, x)?;
        let base = self.atan(ratio);
        let zero = self.zeros_like(x);
        let xlt0 = self.cmp_lt(x, zero)?;
        let ylt0 = self.cmp_lt(y, zero)?;
        let pi = self.scalar(x, F32_PI);
        let npi = self.neg(pi);
        let zero2 = self.zeros_like(x);
        let inner = self.select(ylt0, npi, pi)?;
        let corr = self.select(xlt0, inner, zero2)?;
        self.add(base, corr)
    }

    /// Normalized sinc `sin(pi x) / (pi x)`, with `sinc(0) = 1`.
    pub fn sinc(&mut self, x: NodeId) -> (r: Result<NodeId, Error>)
        requires old(self).wf(), old(self).room(15), old(self).valid(x), !old(self).dt(x).spec_is_int(),
        ensures
            final(self).wf(), final(self).grew(*old(self), 15),
            r is Ok <==> old(self).dt(x).spec_is_float(),
            r matches Ok(id) ==> final(self).valid(id) && final(self).sh(id) == old(self).sh(x)
                && final(self).dt(id) == old(self).dt(x),
            r matches Ok(id) ==> ({
                let g = *final(self);
                let eq = g.arg(id, 0);
                let q = g.arg(id, 2);
                let sn = g.arg(q, 0);
                let pxx = g.arg(sn, 0);
                &&& g.node_is(id, Op::Where, seq![eq, g.arg(id, 1), q])
                &&& is_scalar_of(g, g.arg(id, 1), F32_ONE)
                &&& g.node_is(eq, Op::CmpEq, seq![x, g.arg(eq, 1)])
                &&& is_scalar_of(g, g.arg(eq, 1), F32_ZERO)
                &&& g.node_is(q, Op::Mul, seq![sn, g.arg(q, 1)])
                &&& g.node_is(g.arg(q, 1), Op::Recip, seq![pxx])
                &&& g.node_is(sn, Op::Sin, seq![pxx])
                &&& g.node_is(pxx, Op::Mul, seq![g.arg(pxx, 0), x])
                &&& is_scalar_of(g, g.arg(pxx, 0), F32_PI)
            }),
    {
        let z = self.zeros_like(x);
        let ghost gk1 = *self;
        let eq = self.cmp_eq(x, z)?;
        let px = self.scalar(x, F32_PI);
        let ghost gk2 = *self;
        let pxx = self.mul(px, x)?;
        let s = self.sin(pxx);
        let r = self.div(s, pxx)?;
        let one = self.ones_like(x);
        let ghost gk3 = *self;
        let res_id = self.select(eq, one, r);
        proof {
            lemma_scalar_kept(gk1, *self, z, F32_ZERO);
            lemma_scalar_kept(gk2, *self, px, F32_PI);
            lemma_scalar_kept(gk3, *self, one, F32_ONE);
        }
        res_id
    }
}

} // verus!
