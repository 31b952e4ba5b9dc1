//! Neural-net activations (decomposed) and the softmax family (softmax is the fused
//! `Op::Softmax` primitive).

use vstd::prelude::*;
use crate::error::Error;
use crate::graph::{Graph, NodeId, Op};
use crate::graph::infer::ins_of;
use crate::graph::shape::numel;
use crate::graph::ops::base::elementwise::float_or_complex;
use crate::graph::ops::base::scalar::{ok_id, is_scalar_of, lemma_scalar_kept, is_f32_unit, spread_source, F32_ONE, F32_HALF, F32_ZERO, F32_TWO};
use crate::graph::ops::base::signal::{is_diff_of, is_quot_of};
use crate::graph::shape::{expand_ok, left_pad_ones};
use crate::graph::ops::base::reduce::{is_spread_of, lemma_spread_kept};
use crate::graph::ops::base::explog::{is_exp_of, lemma_exp_kept, is_ln_of, lemma_ln_kept};
use crate::graph::ops::base::trig::{is_tanh_of, lemma_tanh_kept, tanh_input};
use crate::graph::ops::base::special::{is_erf_of, lemma_erf_kept};

verus! {

/// 0.044715 as f32.
pub const F32_GELU_C: u32 = 0x3d37_2713;
/// sqrt(2/pi) as f32 (computed in f32).
pub const F32_SQRT_2_OVER_PI: u32 = 0x3f4c_4229;
/// 1/sqrt(2) as f32.
pub const F32_FRAC_1_SQRT_2: u32 = 0x3f35_04f3;
/// 3.0 as f32.
pub const F32_THREE: u32 = 0x4040_0000;
/// 1/6 as f32.
pub const F32_SIXTH: u32 = 0x3e2a_aaab;
/// SELU alpha 1.6732632 as f32.
pub const F32_SELU_ALPHA: u32 = 0x3fd6_2d7d;
/// SELU lambda 1.050701 as f32.
pub const F32_SELU_LAMBDA: u32 = 0x3f86_7d5f;

/// Node `id` of `g` is `sigmoid(x) = 1 / (1 + exp(-x))`.
pub open spec fn is_sigmoid_of(g: Graph, id: NodeId, x: NodeId) -> bool {
    let d = g.arg(id, 0);
    let e = g.arg(d, 1);
    let nx = g.arg(g.arg(e, 0), 0);
    &&& g.node_is(id, Op::Recip, seq![d])
    &&& g.node_is(d, Op::Add, seq![g.arg(d, 0), e])
    &&& is_scalar_of(g, g.arg(d, 0), F32_ONE)
    &&& is_exp_of(g, e, nx)
    &&& g.node_is(nx, Op::Neg, seq![x])
}

/// A `sigmoid` node stays one as the graph grows.
pub proof fn lemma_sigmoid_kept(g0: Graph, g1: Graph, id: NodeId, x: NodeId)
    requires g0.wf(), is_sigmoid_of(g0, id, x), g1.extends(g0),
    ensures is_sigmoid_of(g1, id, x),
{
    let d = g0.arg(id, 0);
    let e = g0.arg(d, 1);
    g0.lemma_arg_kept(g1, id, 0);
    g0.lemma_arg_kept(g1, d, 0);
    g0.lemma_arg_kept(g1, d, 1);
    g0.lemma_arg_kept(g1, g0.arg(e, 0), 0);
    lemma_scalar_kept(g0, g1, g0.arg(d, 0), F32_ONE);
    lemma_exp_kept(g0, g1, e, g0.arg(g0.arg(e, 0), 0));
}

/// Node `id` of `g` is `softplus(x) = max(x, 0) + ln(1 + exp(-|x|))`.
pub open spec fn is_softplus_of(g: Graph, id: NodeId, x: NodeId) -> bool {
    let r = g.arg(id, 0);
    let l = g.arg(id, 1);
    let onep = g.arg(g.arg(l, 0), 0);
    let e = g.arg(onep, 1);
    let na = g.arg(g.arg(e, 0), 0);
    let na_src = g.arg(na, 0);
    &&& g.node_is(id, Op::Add, seq![r, l])
    &&& g.node_is(r, Op::Max, seq![x, g.arg(r, 1)])
    &&& is_scalar_of(g, g.arg(r, 1), F32_ZERO)
    &&& is_ln_of(g, l, onep)
    &&& g.node_is(onep, Op::Add, seq![g.arg(onep, 0), e])
    &&& is_scalar_of(g, g.arg(onep, 0), F32_ONE)
    &&& is_exp_of(g, e, g.arg(g.arg(e, 0), 0))
    &&& g.arg(g.arg(e, 0), 0) == na
    &&& g.node_is(na, Op::Neg, seq![na_src])
    &&& g.node_is(na_src, Op::Max, seq![x, g.arg(na_src, 1)])
    &&& g.node_is(g.arg(na_src, 1), Op::Neg, seq![x])
}

/// A `softplus` node stays one as the graph grows.
pub proof fn lemma_softplus_kept(g0: Graph, g1: Graph, id: NodeId, x: NodeId)
    requires g0.wf(), is_softplus_of(g0, id, x), g1.extends(g0),
    ensures is_softplus_of(g1, id, x),
{
    let r = g0.arg(id, 0);
    let l = g0.arg(id, 1);
    let onep = g0.arg(g0.arg(l, 0), 0);
    let e = g0.arg(onep, 1);
    let na = g0.arg(g0.arg(e, 0), 0);
    let na_src = g0.arg(na, 0);
    g0.lemma_arg_kept(g1, id, 0);
    g0.lemma_arg_kept(g1, id, 1);
    g0.lemma_arg_kept(g1, r, 1);
    g0.lemma_arg_kept(g1, onep, 0);
    g0.lemma_arg_kept(g1, onep, 1);
    g0.lemma_arg_kept(g1, na, 0);
    g0.lemma_arg_kept(g1, na_src, 1);
    lemma_scalar_kept(g0, g1, g0.arg(r, 1), F32_ZERO);
    lemma_scalar_kept(g0, g1, g0.arg(onep, 0), F32_ONE);
    lemma_ln_kept(g0, g1, l, onep);
    lemma_exp_kept(g0, g1, e, na);
    g0.lemma_arg_kept(g1, e, 0);
    g0.lemma_arg_kept(g1, g0.arg(e, 0), 0);
}

impl Graph {
    /// `sigmoid(x) = 1 / (1 + exp(-x))` (float or complex).
    pub fn sigmoid(&mut self, x: NodeId) -> (id: NodeId)
        requires old(self).wf(), old(self).room(11), old(self).valid(x), float_or_complex(old(self).dt(x)),
        ensures
            final(self).wf(), final(self).grew(*old(self), 11),
            final(self).valid(id), final(self).sh(id) == old(self).sh(x), final(self).dt(id) == old(self).dt(x),
            is_sigmoid_of(*final(self), id, x),
    {
        let nx = self.neg(x);
        let e = self.exp(nx);
        let ghost g1 = *self;
        let one = self.scalar(x, F32_ONE);
        let ghost g2 = *self;
        let d = ok_id(self.add(one, e));
        let r = self.recip(d);
        proof {
            lemma_exp_kept(g1, *self, e, nx);
            lemma_scalar_kept(g2, *self, one, F32_ONE);
        }
        r
    }

    /// ReLU `max(x, 0)` (numeric).
    pub fn relu(&mut self, x: NodeId) -> (id: NodeId)
        requires old(self).wf(), old(self).room(4), old(self).valid(x), old(self).dt(x).spec_is_numeric(),
        ensures
            final(self).wf(), final(self).grew(*old(self), 4),
            final(self).valid(id), final(self).sh(id) == old(self).sh(x), final(self).dt(id) == old(self).dt(x),
            final(self).node_is(id, Op::Max, seq![x, final(self).arg(id, 1)]) && is_scalar_of(*final(self), final(self).arg(id, 1), F32_ZERO),
    {
        let z = self.zeros_like(x);
        let ghost gk1 = *self;
        let res_id = ok_id(self.max(x, z));
        proof {
            lemma_scalar_kept(gk1, *self, z, F32_ZERO);
        }
        res_id
    }

    /// SiLU `x * sigmoid(x)` (float or complex).
    pub fn silu(&mut self, x: NodeId) -> (id: NodeId)
        requires old(self).wf(), old(self).room(12), old(self).valid(x), float_or_complex(old(self).dt(x)),
        ensures
            final(self).wf(), final(self).grew(*old(self), 12),
            final(self).valid(id), final(self).sh(id) == old(self).sh(x), final(self).dt(id) == old(self).dt(x),
            final(self).node_is(id, Op::Mul, seq![x, final(self).arg(id, 1)]) && is_sigmoid_of(*final(self), final(self).arg(id, 1), x),
    {
        let s = self.sigmoid(x);
        let ghost gk1 = *self;
        let res_id = ok_id(self.mul(x, s));
        proof {
            lemma_sigmoid_kept(gk1, *self, s, x);
        }
        res_id
    }

    /// GPT-2 gelu `0.5 x (1 + tanh(sqrt(2/pi) (x + 0.044715 x^3)))` (float or complex).
    #[verifier::spinoff_prover]
    #[verifier::rlimit(60)]
    pub fn gelu(&mut self, x: NodeId) -> (id: NodeId)
        requires old(self).wf(), old(self).room(46), old(self).valid(x), float_or_complex(old(self).dt(x)),
        ensures
            final(self).wf(), final(self).grew(*old(self), 46),
            final(self).valid(id), final(self).sh(id) == old(self).sh(x), final(self).dt(id) == old(self).dt(x),
            ({
                let g = *final(self);
                let hx = g.arg(id, 0);
                let onep = g.arg(id, 1);
                let t = g.arg(onep, 1);
                &&& g.node_is(id, Op::Mul, seq![hx, onep])
                &&& g.node_is(hx, Op::Mul, seq![g.arg(hx, 0), x])
                &&& is_scalar_of(g, g.arg(hx, 0), F32_HALF)
                &&& g.node_is(onep, Op::Add, seq![g.arg(onep, 0), t])
                &&& is_scalar_of(g, g.arg(onep, 0), F32_ONE)
                &&& is_tanh_of(g, t, tanh_input(g, t))
                &&& g.node_is(tanh_input(g, t), Op::Mul, seq![g.arg(tanh_input(g, t), 0), g.arg(tanh_input(g, t), 1)])
            }),
    {
        let x2 = ok_id(self.mul(x, x));
        let x3 = ok_id(self.mul(x2, x));
        let c = self.scalar(x, F32_GELU_C);
        let ghost gk1 = *self;
        let cx3 = ok_id(self.mul(c, x3));
        let inner = ok_id(self.add(x, cx3));
        let k = self.scalar(x, F32_SQRT_2_OVER_PI);
        let ghost gk2 = *self;
        let scaled = ok_id(self.mul(k, inner));
        let t = self.tanh(scaled);
        let ghost gk3 = *self;
        let one = self.scalar(x, F32_ONE);
        let ghost gk4 = *self;
        let onep = ok_id(self.add(one, t));
        let half = self.scalar(x, F32_HALF);
        let ghost gk5 = *self;
        let hx = ok_id(self.mul(half, x));
        let res_id = ok_id(self.mul(hx, onep));
        proof {
            lemma_scalar_kept(gk1, *self, c, F32_GELU_C);
            lemma_scalar_kept(gk2, *self, k, F32_SQRT_2_OVER_PI);
            lemma_tanh_kept(gk3, *self, t, scaled);
            lemma_scalar_kept(gk4, *self, one, F32_ONE);
            lemma_scalar_kept(gk5, *self, half, F32_HALF);
        }
        res_id
    }

    /// Softplus `relu(x) + ln(1 + e^(-|x|))` (float).
    pub fn softplus(&mut self, x: NodeId) -> (id: NodeId)
        requires old(self).wf(), old(self).room(22), old(self).valid(x), old(self).dt(x).spec_is_float(),
        ensures
            final(self).wf(), final(self).grew(*old(self), 22),
            final(self).valid(id), final(self).sh(id) == old(self).sh(x), final(self).dt(id) == old(self).dt(x),
            is_softplus_of(*final(self), id, x),
    {
        let r = self.relu(x);
        let ghost gr = *self;
        let a = self.abs(x);
        let na = self.neg(a);
        let e = self.exp(na);
        let ghost gk1 = *self;
        let one = self.scalar(x, F32_ONE);
        let ghost gk2 = *self;
        let onep = ok_id(self.add(one, e));
        let l = self.ln(onep);
        let ghost gk3 = *self;
        let res_id = ok_id(self.add(r, l));
        proof {
            gr.lemma_arg_kept(*self, r, 1);
            lemma_scalar_kept(gr, *self, gr.arg(r, 1), F32_ZERO);
            lemma_exp_kept(gk1, *self, e, na);
            lemma_scalar_kept(gk2, *self, one, F32_ONE);
            lemma_ln_kept(gk3, *self, l, onep);
        }
        res_id
    }

    /// Mish `x * tanh(softplus(x))` (float).
    pub fn mish(&mut self, x: NodeId) -> (id: NodeId)
        requires old(self).wf(), old(self).room(47), old(self).valid(x), old(self).dt(x).spec_is_float(),
        ensures
            final(self).wf(), final(self).grew(*old(self), 47),
            final(self).valid(id), final(self).sh(id) == old(self).sh(x), final(self).dt(id) == old(self).dt(x),
            ({
                let g = *final(self);
                let t = g.arg(id, 1);
                &&& g.node_is(id, Op::Mul, seq![x, t])
                &&& is_tanh_of(g, t, tanh_input(g, t))
                &&& is_softplus_of(g, tanh_input(g, t), x)
            }),
    {
        let sp = self.softplus(x);
        let ghost gk1 = *self;
        let t = self.tanh(sp);
        let ghost gk2 = *self;
        let res_id = ok_id(self.mul(x, t));
        proof {
            lemma_softplus_kept(gk1, *self, sp, x);
            lemma_tanh_kept(gk2, *self, t, sp);
        }
        res_id
    }

    /// Parametric ReLU `where(x > 0, x, slope * x)`, with `slope` broadcast to `x`'s shape.
    pub fn prelu(&mut self, x: NodeId, slope: NodeId) -> (r: Result<NodeId, Error>)
        requires
            old(self).wf(), old(self).room(8), old(self).valid(x), old(self).valid(slope),
            numel(old(self).sh(slope)) <= usize::MAX,
        ensures
            final(self).wf(), final(self).grew(*old(self), 8),
            r is Ok <==> old(self).dt(x).spec_is_numeric() && old(self).dt(slope) == old(self).dt(x)
                && expand_ok(left_pad_ones(old(self).sh(slope), old(self).sh(x).len()), old(self).sh(x)),
            r matches Ok(id) ==> final(self).valid(id) && final(self).sh(id) == old(self).sh(x)
                && final(self).dt(id) == old(self).dt(x),
            r matches Ok(id) ==> ({
                let g = *final(self);
                let pos = g.arg(id, 0);
                let nb = g.arg(id, 2);
                let bs = g.arg(nb, 0);
                &&& g.node_is(id, Op::Where, seq![pos, x, nb])
                &&& g.node_is(pos, Op::CmpLt, seq![g.arg(pos, 0), x])
                &&& is_scalar_of(g, g.arg(pos, 0), F32_ZERO)
                &&& g.node_is(nb, Op::Mul, seq![bs, x])
                &&& g.sh(bs) == old(self).sh(x)
                &&& g.opn(bs) is Expand && g.srcs(bs).len() == 1
                &&& (g.arg(bs, 0) == slope || (g.opn(g.arg(bs, 0)) is Reshape && g.srcs(g.arg(bs, 0)) == seq![slope]))
            }),
    {
        let z = self.zeros_like(x);
        let ghost g1 = *self;
        let pos = self.cmp_lt(z, x)?;
        let bs = self.broadcast_like(slope, x)?;
        let ghost g2 = *self;
        let neg_branch = self.mul(bs, x)?;
        let r = self.select(pos, x, neg_branch);
        proof {
            lemma_scalar_kept(g1, *self, z, F32_ZERO);
            g2.lemma_arg_kept(*self, bs, 0);
        }
        r
    }

    /// Hard sigmoid `clamp((x + 3) / 6, 0, 1)` (float).
    pub fn hardsigmoid(&mut self, x: NodeId) -> (id: NodeId)
        requires old(self).wf(), old(self).room(17), old(self).valid(x), old(self).dt(x).spec_is_float(),
        ensures
            final(self).wf(), final(self).grew(*old(self), 17),
            final(self).valid(id), final(self).sh(id) == old(self).sh(x), final(self).dt(id) == old(self).dt(x),
            ({
                let g = *final(self);
                let up = g.arg(id, 1);
                let hi = g.arg(id, 2);
                let y = g.arg(up, 0);
                let s = g.arg(y, 0);
                &&& g.node_is(id, Op::Where, seq![g.arg(id, 0), up, hi])
                &&& g.node_is(g.arg(id, 0), Op::CmpLt, seq![up, hi])
                &&& is_scalar_of(g, hi, F32_ONE)
                &&& g.node_is(up, Op::Max, seq![y, g.arg(up, 1)])
                &&& is_scalar_of(g, g.arg(up, 1), F32_ZERO)
                &&& g.node_is(y, Op::Mul, seq![s, g.arg(y, 1)])
                &&& is_scalar_of(g, g.arg(y, 1), F32_SIXTH)
                &&& g.node_is(s, Op::Add, seq![x, g.arg(s, 1)])
                &&& is_scalar_of(g, g.arg(s, 1), F32_THREE)
            }),
    {
        let three = self.scalar(x, F32_THREE);
        let ghost gk1 = *self;
        let s = ok_id(self.add(x, three));
        let sixth = self.scalar(x, F32_SIXTH);
        let ghost gk2 = *self;
        let y = ok_id(self.mul(s, sixth));
        let lo = self.scalar(y, F32_ZERO);
        let ghost gk3 = *self;
        let hi = self.scalar(y, F32_ONE);
        let ghost gk4 = *self;
        let up = ok_id(self.max(y, lo));
        let res_id = ok_id(self.min(up, hi));
        proof {
            lemma_scalar_kept(gk1, *self, three, F32_THREE);
            lemma_scalar_kept(gk2, *self, sixth, F32_SIXTH);
            lemma_scalar_kept(gk3, *self, lo, F32_ZERO);
            lemma_scalar_kept(gk4, *self, hi, F32_ONE);
        }
        res_id
    }

    /// Hard swish `x * hardsigmoid(x)` (float).
    pub fn hardswish(&mut self, x: NodeId) -> (id: NodeId)
        requires old(self).wf(), old(self).room(18), old(self).valid(x), old(self).dt(x).spec_is_float(),
        ensures
            final(self).wf(), final(self).grew(*old(self), 18),
            final(self).valid(id), final(self).sh(id) == old(self).sh(x), final(self).dt(id) == old(self).dt(x),
            final(self).node_is(id, Op::Mul, seq![x, final(self).arg(id, 1)])
                && final(self).node_is(final(self).arg(id, 1), Op::Where, seq![final(self).arg(final(self).arg(id, 1), 0),
                    final(self).arg(final(self).arg(id, 1), 1), final(self).arg(final(self).arg(id, 1), 2)]),
    {
        let h = self.hardsigmoid(x);
        let res_id = ok_id(self.mul(x, h));
        proof {
        }
        res_id
    }

    /// Fused numerically-stable softmax over `axis` (float).
    pub fn softmax(&mut self, x: NodeId, axis: usize) -> (r: Result<NodeId, Error>)
        requires old(self).wf(), old(self).room(1), old(self).valid(x),
        ensures
            final(self).wf(),
            r is Ok <==> axis < old(self).sh(x).len() && old(self).dt(x).spec_is_float(),
            r matches Ok(id) ==> final(self).pushed(*old(self), id, Op::Softmax { axis }, seq![x])
                && final(self).sh(id) == old(self).sh(x) && final(self).dt(id) == old(self).dt(x),
            r is Err ==> *final(self) == *old(self),
    {
        self.reduce_axis_ok("softmax", x, axis)?;
        self.require("softmax", x, self.dtype(x).is_float())?;
        let v = vec![x];
        assert(v@ =~= seq![x]);
        assert(ins_of(self.nodes@, v@)[0] == (self.sh(x), self.dt(x)));
        Ok(self.push(Op::Softmax { axis }, v))
    }

    /// Softsign `x / (1 + |x|)` (float).
    pub fn softsign(&mut self, x: NodeId) -> (id: NodeId)
        requires old(self).wf(), old(self).room(8), old(self).valid(x), old(self).dt(x).spec_is_float(),
        ensures
            final(self).wf(), final(self).grew(*old(self), 8),
            final(self).valid(id), final(self).sh(id) == old(self).sh(x), final(self).dt(id) == old(self).dt(x),
            ({
                let g = *final(self);
                let d = g.arg(g.arg(id, 1), 0);
                let a = g.arg(d, 1);
                &&& g.node_is(id, Op::Mul, seq![x, g.arg(id, 1)])
                &&& g.node_is(g.arg(id, 1), Op::Recip, seq![d])
                &&& g.node_is(d, Op::Add, seq![g.arg(d, 0), a])
                &&& is_scalar_of(g, g.arg(d, 0), F32_ONE)
                &&& g.node_is(a, Op::Max, seq![x, g.arg(a, 1)])
                &&& g.node_is(g.arg(a, 1), Op::Neg, seq![x])
            }),
    {
        let a = self.abs(x);
        let one = self.scalar(a, F32_ONE);
        let ghost gk1 = *self;
        let d = ok_id(self.add(one, a));
        let res_id = ok_id(self.div(x, d));
        proof {
            lemma_scalar_kept(gk1, *self, one, F32_ONE);
        }
        res_id
    }

    /// ELU with alpha given as an f32 bit pattern: `where(x > 0, x, alpha * (e^x - 1))` (float).
    pub fn elu(&mut self, x: NodeId, alpha: u32) -> (id: NodeId)
        requires old(self).wf(), old(self).room(19), old(self).valid(x), old(self).dt(x).spec_is_float(),
        ensures
            final(self).wf(), final(self).grew(*old(self), 19),
            final(self).valid(id), final(self).sh(id) == old(self).sh(x), final(self).dt(id) == old(self).dt(x),
            ({
                let g = *final(self);
                let pos = g.arg(id, 0);
                let nb = g.arg(id, 2);
                let em1 = g.arg(nb, 1);
                &&& g.node_is(id, Op::Where, seq![pos, x, nb])
                &&& g.node_is(pos, Op::CmpLt, seq![g.arg(pos, 0), x])
                &&& is_scalar_of(g, g.arg(pos, 0), F32_ZERO)
                &&& g.node_is(nb, Op::Mul, seq![g.arg(nb, 0), em1])
                &&& is_scalar_of(g, g.arg(nb, 0), alpha)
                &&& g.node_is(em1, Op::Add, seq![g.arg(em1, 0), g.arg(em1, 1)])
                &&& is_exp_of(g, g.arg(em1, 0), x)
                &&& g.node_is(g.arg(em1, 1), Op::Neg, seq![g.arg(g.arg(em1, 1), 0)])
                &&& is_scalar_of(g, g.arg(g.arg(em1, 1), 0), F32_ONE)
            }),
    {
        let z = self.zeros_like(x);
        let ghost gk1 = *self;
        let pos = ok_id(self.cmp_lt(z, x));
        let e = self.exp(x);
        let ghost gk2 = *self;
        let one = self.scalar(x, F32_ONE);
        let ghost gk3 = *self;
        let em1 = ok_id(self.sub(e, one));
        let a = self.scalar(x, alpha);
        let ghost gk4 = *self;
        let neg_branch = ok_id(self.mul(a, em1));
        let res_id = ok_id(self.select(pos, x, neg_branch));
        proof {
            lemma_scalar_kept(gk1, *self, z, F32_ZERO);
            lemma_exp_kept(gk2, *self, e, x);
            lemma_scalar_kept(gk3, *self, one, F32_ONE);
            lemma_scalar_kept(gk4, *self, a, alpha);
        }
        res_id
    }

    /// SELU `lambda * elu(x, alpha)` with the self-normalizing constants (float).
    pub fn selu(&mut self, x: NodeId) -> (id: NodeId)
        requires old(self).wf(), old(self).room(23), old(self).valid(x), old(self).dt(x).spec_is_float(),
        ensures
            final(self).wf(), final(self).grew(*old(self), 23),
            final(self).valid(id), final(self).sh(id) == old(self).sh(x), final(self).dt(id) == old(self).dt(x),
            final(self).node_is(id, Op::Mul, seq![final(self).arg(id, 0), final(self).arg(id, 1)])
                && is_scalar_of(*final(self), final(self).arg(id, 0), F32_SELU_LAMBDA)
                && final(self).node_is(final(self).arg(id, 1), Op::Where, seq![final(self).arg(final(self).arg(id, 1), 0), x,
                    final(self).arg(final(self).arg(id, 1), 2)]),
    {
        let e = self.elu(x, F32_SELU_ALPHA);
        let lam = self.scalar(e, F32_SELU_LAMBDA);
        let ghost gk1 = *self;
        let res_id = ok_id(self.mul(lam, e));
        proof {
            lemma_scalar_kept(gk1, *self, lam, F32_SELU_LAMBDA);
        }
        res_id
    }
    /// Exact GELU through the error function: `0.5 x (1 + erf(x / sqrt(2)))` (float).
    pub fn gelu_erf(&mut self, x: NodeId) -> (id: NodeId)
        requires old(self).wf(), old(self).room(83), old(self).valid(x), old(self).dt(x).spec_is_float(),
        ensures
            final(self).wf(), final(self).grew(*old(self), 83),
            final(self).valid(id), final(self).sh(id) == old(self).sh(x), final(self).dt(id) == old(self).dt(x),
            ({
                let g = *final(self);
                let hx = g.arg(id, 0);
                let onep = g.arg(id, 1);
                let e = g.arg(onep, 1);
                let xs = g.arg(g.arg(g.arg(g.arg(e, 0), 0), 0), 1);
                &&& g.node_is(id, Op::Mul, seq![hx, onep])
                &&& g.node_is(hx, Op::Mul, seq![g.arg(hx, 0), x])
                &&& is_scalar_of(g, g.arg(hx, 0), F32_HALF)
                &&& g.node_is(onep, Op::Add, seq![g.arg(onep, 0), e])
                &&& is_scalar_of(g, g.arg(onep, 0), F32_ONE)
                &&& is_erf_of(g, e, xs)
                &&& g.node_is(xs, Op::Mul, seq![x, g.arg(xs, 1)])
                &&& is_scalar_of(g, g.arg(xs, 1), F32_FRAC_1_SQRT_2)
            }),
    {
        let inv_sqrt2 = self.scalar(x, F32_FRAC_1_SQRT_2);
        let ghost gk1 = *self;
        let xs = ok_id(self.mul(x, inv_sqrt2));
        let e = self.erf(xs);
        let ghost gk2 = *self;
        let one = self.scalar(e, F32_ONE);
        let ghost gk3 = *self;
        let onep = ok_id(self.add(one, e));
        let half = self.scalar(x, F32_HALF);
        let ghost gk4 = *self;
        let hx = ok_id(self.mul(half, x));
        let res_id = ok_id(self.mul(hx, onep));
        proof {
            lemma_scalar_kept(gk1, *self, inv_sqrt2, F32_FRAC_1_SQRT_2);
            lemma_erf_kept(gk2, *self, e, xs);
            lemma_scalar_kept(gk3, *self, one, F32_ONE);
            lemma_scalar_kept(gk4, *self, half, F32_HALF);
        }
        res_id
    }

    /// Leaky ReLU with `slope` given as an f32 bit pattern: `where(x > 0, x, slope * x)`
    /// (numeric).
    pub fn leaky_relu(&mut self, x: NodeId, slope: u32) -> (id: NodeId)
        requires old(self).wf(), old(self).room(9), old(self).valid(x), old(self).dt(x).spec_is_numeric(),
        ensures
            final(self).wf(), final(self).grew(*old(self), 9),
            final(self).valid(id), final(self).sh(id) == old(self).sh(x), final(self).dt(id) == old(self).dt(x),
            ({
                let g = *final(self);
                let pos = g.arg(id, 0);
                let nb = g.arg(id, 2);
                &&& g.node_is(id, Op::Where, seq![pos, x, nb])
                &&& g.node_is(pos, Op::CmpLt, seq![g.arg(pos, 0), x])
                &&& is_scalar_of(g, g.arg(pos, 0), F32_ZERO)
                &&& g.node_is(nb, Op::Mul, seq![g.arg(nb, 0), x])
                &&& is_scalar_of(g, g.arg(nb, 0), slope)
            }),
    {
        let z = self.zeros_like(x);
        let ghost gk1 = *self;
        let pos = ok_id(self.cmp_lt(z, x));
        let s = self.scalar(x, slope);
        let ghost gk2 = *self;
        let neg_branch = ok_id(self.mul(s, x));
        let res_id = ok_id(self.select(pos, x, neg_branch));
        proof {
            lemma_scalar_kept(gk1, *self, z, F32_ZERO);
            lemma_scalar_kept(gk2, *self, s, slope);
        }
        res_id
    }

    /// Log-softmax over `axis`: `x - logsumexp(x, axis)`.
    pub fn log_softmax(&mut self, x: NodeId, axis: usize) -> (r: Result<NodeId, Error>)
        requires
            old(self).wf(), old(self).room(21), old(self).valid(x),
            axis < old(self).sh(x).len() ==> numel(old(self).sh(x).remove(axis as int)) <= usize::MAX,
            axis < old(self).sh(x).len() && old(self).dt(x).spec_is_numeric() ==> old(self).dt(x).spec_is_float(),
        ensures
            final(self).wf(), final(self).grew(*old(self), 21),
            r is Ok <==> axis < old(self).sh(x).len() && old(self).dt(x).spec_is_numeric(),
            r matches Ok(id) ==> final(self).valid(id) && final(self).sh(id) == old(self).sh(x)
                && final(self).dt(id) == old(self).dt(x),
            r matches Ok(id) ==> ({
                let g = *final(self);
                let lb = g.arg(g.arg(id, 1), 0);
                &&& g.node_is(id, Op::Add, seq![x, g.arg(id, 1)])
                &&& g.node_is(g.arg(id, 1), Op::Neg, seq![lb])
                &&& is_spread_of(g, lb, g.arg(g.arg(lb, 0), 0))
            }),
    {
        let full = self.shape(x);
        let lse = self.logsumexp(x, axis)?;
        proof {
            assert(full@.remove(axis as int).insert(axis as int, 1) =~= full@.update(axis as int, 1));
        }
        let lb = ok_id(self.broadcast_back(lse, &full, axis));
        let ghost g1 = *self;
        let res = self.sub(x, lb);
        proof { lemma_spread_kept(g1, *self, lb, lse); }
        res
    }

    /// CELU with `alpha` given as an f32 bit pattern:
    /// `max(0, x) + min(0, alpha (exp(x / alpha) - 1))` (float). `1 / alpha` is rounded in f32.
    #[verifier::spinoff_prover]
    #[verifier::rlimit(80)]
    #[verifier::spinoff_prover]
    #[verifier::rlimit(100)]
    pub fn celu(&mut self, x: NodeId, alpha: u32) -> (id: NodeId)
        requires old(self).wf(), old(self).room(31), old(self).valid(x), old(self).dt(x).spec_is_float(),
        ensures
            final(self).wf(), final(self).grew(*old(self), 31),
            final(self).valid(id), final(self).sh(id) == old(self).sh(x), final(self).dt(id) == old(self).dt(x),
            ({
                let g = *final(self);
                let r = g.arg(id, 0);
                let m = g.arg(id, 1);
                let neg = g.arg(m, 1);
                let zero = g.arg(m, 2);
                let em1 = g.arg(neg, 1);
                let e = g.arg(em1, 0);
                let xa = g.arg(g.arg(e, 0), 0);
                let inv = g.arg(xa, 1);
                &&& g.node_is(id, Op::Add, seq![r, m])
                &&& g.node_is(r, Op::Max, seq![x, g.arg(r, 1)]) && is_scalar_of(g, g.arg(r, 1), F32_ZERO)
                &&& g.node_is(m, Op::Where, seq![g.arg(m, 0), neg, zero]) && g.node_is(g.arg(m, 0), Op::CmpLt, seq![neg, zero])
                &&& is_scalar_of(g, zero, F32_ZERO)
                &&& g.node_is(neg, Op::Mul, seq![g.arg(neg, 0), em1]) && is_scalar_of(g, g.arg(neg, 0), alpha)
                &&& is_diff_of(g, em1, e, g.arg(g.arg(em1, 1), 0)) && is_scalar_of(g, g.arg(g.arg(em1, 1), 0), F32_ONE)
                &&& is_exp_of(g, e, xa)
                &&& g.node_is(xa, Op::Mul, seq![x, inv])
                &&& g.opn(inv) is Expand && g.srcs(inv).len() == 1
                &&& is_quot_of(g, spread_source(g, inv), g.arg(spread_source(g, inv), 0), g.arg(g.arg(spread_source(g, inv), 1), 0))
                &&& is_f32_unit(g, g.arg(spread_source(g, inv), 0), F32_ONE)
                &&& is_f32_unit(g, g.arg(g.arg(spread_source(g, inv), 1), 0), alpha)
            }),
    {
        let r = self.relu(x);
        let ghost g1 = *self;
        let one_u = self.f32_unit(x, F32_ONE);
        let ghost g2 = *self;
        let al_u = self.f32_unit(x, alpha);
        let ghost g3 = *self;
        let inv_u = ok_id(self.div(one_u, al_u));
        let ghost g4 = *self;
        let inv = self.spread_like(inv_u, x);
        let ghost g5 = *self;
        let xa = ok_id(self.mul(x, inv));
        let ghost g6 = *self;
        let e = self.exp(xa);
        let ghost g7 = *self;
        let one = self.scalar(e, F32_ONE);
        let ghost g8 = *self;
        let em1 = ok_id(self.sub(e, one));
        let ghost g9 = *self;
        let a = self.scalar(em1, alpha);
        let ghost g10 = *self;
        let neg = ok_id(self.mul(a, em1));
        let ghost g11 = *self;
        let zero = self.zeros_like(neg);
        let ghost g12 = *self;
        let m = ok_id(self.min(neg, zero));
        let ghost g13 = *self;
        let res = ok_id(self.add(r, m));
        proof {
            reveal(is_f32_unit);
            g1.lemma_node_kept(*self, r);
            g1.lemma_arg_kept(*self, r, 1);
            lemma_scalar_kept(g1, *self, g1.arg(r, 1), F32_ZERO);
            g2.lemma_node_kept(*self, one_u);
            g3.lemma_node_kept(*self, al_u);
            g4.lemma_node_kept(*self, inv_u);
            g4.lemma_arg_kept(*self, inv_u, 1);
            g5.lemma_node_kept(*self, inv);
            g5.lemma_arg_kept(*self, inv, 0);
            assert(spread_source(*self, inv) == inv_u);
            g6.lemma_node_kept(*self, xa);
            lemma_exp_kept(g7, *self, e, xa);
            lemma_scalar_kept(g8, *self, one, F32_ONE);
            g9.lemma_node_kept(*self, em1);
            g9.lemma_arg_kept(*self, em1, 1);
            lemma_scalar_kept(g10, *self, a, alpha);
            g11.lemma_node_kept(*self, neg);
            lemma_scalar_kept(g12, *self, zero, F32_ZERO);
            g13.lemma_node_kept(*self, m);
            g13.lemma_arg_kept(*self, m, 0);
        }
        res
    }
}

} // verus!
