//! Special functions as polynomial / rational approximations, composed from primitives.
//! Every constant is an IEEE-754 binary32 bit pattern.

use vstd::prelude::*;
use crate::error::Error;
use crate::graph::{Graph, NodeId, Op};
use crate::graph::ops::base::scalar::{ok_id, is_scalar_of, lemma_scalar_kept, F32_ONE, F32_HALF};
use crate::graph::ops::base::explog::{is_ln_of, lemma_ln_kept, is_exp_of, lemma_exp_kept};
use crate::graph::ops::base::elementwise::{is_sign_of, lemma_sign_kept};

verus! {

/// Coefficients of the `erf` polynomial in `t` (Abramowitz & Stegun 7.1.26), highest first.
pub const ERF_A5: u32 = 0x3f87_dc22;
/// `p` of Abramowitz & Stegun 7.1.26.
pub const ERF_P: u32 = 0x3ea7_ba05;
/// `0.5 * ln(2 pi)` computed in f32.
pub const F32_HALF_LN_TAU: u32 = 0x3f6b_3f8e;
/// `g + 0.5 = 7.5` for the Lanczos approximation.
pub const F32_LANCZOS_T: u32 = 0x40f0_0000;
/// 2.5, 3.0, 3.75, 5.0 and 6.0.
pub const F32_2_5: u32 = 0x4020_0000;
pub const F32_3: u32 = 0x4040_0000;
pub const F32_3_75: u32 = 0x4070_0000;
pub const F32_5: u32 = 0x40a0_0000;
pub const F32_6: u32 = 0x40c0_0000;

/// The integers 1..8 as f32.
pub open spec fn small_int_bits(k: int) -> u32 {
    if k == 1 { 0x3f80_0000 } else if k == 2 { 0x4000_0000 } else if k == 3 { 0x4040_0000 }
    else if k == 4 { 0x4080_0000 } else if k == 5 { 0x40a0_0000 } else if k == 6 { 0x40c0_0000 }
    else if k == 7 { 0x40e0_0000 } else { 0x4100_0000 }
}

/// `k as f32` for `1 <= k <= 8`.
fn small_int_f32(k: usize) -> (b: u32)
    requires 1 <= k <= 8,
    ensures b == small_int_bits(k as int),
{
    if k == 1 { 0x3f80_0000 } else if k == 2 { 0x4000_0000 } else if k == 3 { 0x4040_0000 }
    else if k == 4 { 0x4080_0000 } else if k == 5 { 0x40a0_0000 } else if k == 6 { 0x40c0_0000 }
    else if k == 7 { 0x40e0_0000 } else { 0x4100_0000 }
}

/// Giles' `erfinv` polynomial for `w < 5`, highest degree first.
pub open spec fn erfinv_small_spec() -> Seq<u32> {
    seq![0x32f1_6588u32, 0x34b8_4b36, 0xb66c_7357, 0xb693_5ac1, 0x3965_32db,
        0xbaa4_5408, 0xbb88_e4ef, 0x3e7c_8f63, 0x3fc0_2e2f]
}

/// Giles' `erfinv` polynomial for `w >= 5`, highest degree first.
pub open spec fn erfinv_large_spec() -> Seq<u32> {
    seq![0xb951_f09bu32, 0x38d3_b56b, 0x3ab0_dc72, 0xbb70_bde7, 0x3bbc_127b,
        0xbbf9_c5d7, 0x3c1a_a57e, 0x3f80_36db, 0x4035_4f7e]
}

/// Node `id` of `g` is the Horner evaluation in `t` of `coeffs` (highest degree first):
/// `((c0 * t + c1) * t + c2) ...`, each coefficient a broadcast constant.
pub open spec fn is_horner(g: Graph, id: NodeId, t: NodeId, coeffs: Seq<u32>) -> bool
    decreases coeffs.len(),
{
    if coeffs.len() <= 1 {
        coeffs.len() == 1 && is_scalar_of(g, id, coeffs[0]) && g.valid(id)
    } else {
        let m = g.arg(id, 0);
        &&& g.node_is(id, Op::Add, seq![m, g.arg(id, 1)])
        &&& is_scalar_of(g, g.arg(id, 1), coeffs.last())
        &&& g.node_is(m, Op::Mul, seq![g.arg(m, 0), t])
        &&& is_horner(g, g.arg(m, 0), t, coeffs.drop_last())
    }
}

/// The `t` of a node built as the Horner evaluation in `t - c`.
pub open spec fn shifted_input(g: Graph, id: NodeId) -> NodeId {
    g.arg(g.arg(g.arg(id, 0), 1), 0)
}

/// Node `id` of `g` is the Horner evaluation of `coeffs` in `t - c`, `c` the f32 `shift`.
pub open spec fn is_shifted_horner(g: Graph, id: NodeId, t: NodeId, shift: u32, coeffs: Seq<u32>) -> bool {
    let ts = g.arg(g.arg(id, 0), 1);
    &&& coeffs.len() >= 2
    &&& is_horner(g, id, ts, coeffs)
    &&& g.node_is(ts, Op::Add, seq![t, g.arg(ts, 1)])
    &&& g.node_is(g.arg(ts, 1), Op::Neg, seq![g.arg(g.arg(ts, 1), 0)])
    &&& is_scalar_of(g, g.arg(g.arg(ts, 1), 0), shift)
}

/// A shifted Horner evaluation stays one as the graph grows.
pub proof fn lemma_shifted_horner_kept(g0: Graph, g1: Graph, id: NodeId, t: NodeId, shift: u32, coeffs: Seq<u32>)
    requires g0.wf(), is_shifted_horner(g0, id, t, shift, coeffs), g1.extends(g0),
    ensures is_shifted_horner(g1, id, t, shift, coeffs),
{
    let ts = g0.arg(g0.arg(id, 0), 1);
    lemma_horner_kept(g0, g1, id, ts, coeffs);
    g0.lemma_arg_kept(g1, id, 0);
    g0.lemma_arg_kept(g1, g0.arg(id, 0), 1);
    g0.lemma_arg_kept(g1, ts, 1);
    g0.lemma_arg_kept(g1, g0.arg(ts, 1), 0);
    lemma_scalar_kept(g0, g1, g0.arg(g0.arg(ts, 1), 0), shift);
}

/// A Horner evaluation stays one as the graph grows.
pub proof fn lemma_horner_kept(g0: Graph, g1: Graph, id: NodeId, t: NodeId, coeffs: Seq<u32>)
    requires g0.wf(), is_horner(g0, id, t, coeffs), g1.extends(g0),
    ensures is_horner(g1, id, t, coeffs),
    decreases coeffs.len(),
{
    if coeffs.len() <= 1 {
        lemma_scalar_kept(g0, g1, id, coeffs[0]);
    } else {
        let m = g0.arg(id, 0);
        g0.lemma_arg_kept(g1, id, 1);
        g0.lemma_arg_kept(g1, m, 0);
        lemma_scalar_kept(g0, g1, g0.arg(id, 1), coeffs.last());
        lemma_horner_kept(g0, g1, g0.arg(m, 0), t, coeffs.drop_last());
    }
}

/// Node `id` of `g` is the Lanczos `lgamma(x)`: with `z = x - 1`, `t = z + 7.5` and `a` the
/// Lanczos sum, `(0.5 ln(2 pi) + (z + 0.5) ln t) - t + ln a`.
pub open spec fn is_lgamma_of(g: Graph, id: NodeId, x: NodeId) -> bool {
    let s2 = g.arg(id, 0);
    let la = g.arg(id, 1);
    let s1 = g.arg(s2, 0);
    let term1 = g.arg(s1, 1);
    let zph = g.arg(term1, 0);
    let lt = g.arg(term1, 1);
    let t = g.arg(g.arg(g.arg(lt, 0), 0), 0);
    let t_ = g.arg(g.arg(lt, 0), 0);
    let z = g.arg(zph, 0);
    &&& g.node_is(id, Op::Add, seq![s2, la])
    &&& is_ln_of(g, la, g.arg(g.arg(la, 0), 0))
    &&& g.node_is(s2, Op::Add, seq![s1, g.arg(s2, 1)])
    &&& g.node_is(g.arg(s2, 1), Op::Neg, seq![t_])
    &&& g.node_is(s1, Op::Add, seq![g.arg(s1, 0), term1])
    &&& is_scalar_of(g, g.arg(s1, 0), F32_HALF_LN_TAU)
    &&& g.node_is(term1, Op::Mul, seq![zph, lt])
    &&& is_ln_of(g, lt, t_)
    &&& g.node_is(t_, Op::Add, seq![z, g.arg(t_, 1)])
    &&& is_scalar_of(g, g.arg(t_, 1), F32_LANCZOS_T)
    &&& g.node_is(zph, Op::Add, seq![z, g.arg(zph, 1)])
    &&& is_scalar_of(g, g.arg(zph, 1), F32_HALF)
    &&& g.node_is(z, Op::Add, seq![x, g.arg(z, 1)])
    &&& g.node_is(g.arg(z, 1), Op::Neg, seq![g.arg(g.arg(z, 1), 0)])
    &&& is_scalar_of(g, g.arg(g.arg(z, 1), 0), F32_ONE)
}

/// The `x` of an `lgamma` node (see `is_lgamma_of`).
pub open spec fn lgamma_input(g: Graph, id: NodeId) -> NodeId {
    let zph = g.arg(g.arg(g.arg(g.arg(id, 0), 0), 1), 0);
    g.arg(g.arg(zph, 0), 0)
}

/// An `lgamma` node stays one as the graph grows.
pub proof fn lemma_lgamma_kept(g0: Graph, g1: Graph, id: NodeId, x: NodeId)
    requires g0.wf(), is_lgamma_of(g0, id, x), g1.extends(g0),
    ensures is_lgamma_of(g1, id, x),
{
    let s2 = g0.arg(id, 0);
    let la = g0.arg(id, 1);
    let s1 = g0.arg(s2, 0);
    let term1 = g0.arg(s1, 1);
    let zph = g0.arg(term1, 0);
    let lt = g0.arg(term1, 1);
    let t_ = g0.arg(g0.arg(lt, 0), 0);
    let z = g0.arg(zph, 0);
    g0.lemma_arg_kept(g1, id, 0);
    g0.lemma_arg_kept(g1, id, 1);
    g0.lemma_arg_kept(g1, s2, 0);
    g0.lemma_arg_kept(g1, s2, 1);
    g0.lemma_arg_kept(g1, s1, 0);
    g0.lemma_arg_kept(g1, s1, 1);
    g0.lemma_arg_kept(g1, term1, 0);
    g0.lemma_arg_kept(g1, term1, 1);
    g0.lemma_arg_kept(g1, t_, 1);
    g0.lemma_arg_kept(g1, zph, 1);
    g0.lemma_arg_kept(g1, z, 1);
    g0.lemma_arg_kept(g1, g0.arg(z, 1), 0);
    lemma_ln_kept(g0, g1, la, g0.arg(g0.arg(la, 0), 0));
    lemma_ln_kept(g0, g1, lt, t_);
    lemma_scalar_kept(g0, g1, g0.arg(s1, 0), F32_HALF_LN_TAU);
    lemma_scalar_kept(g0, g1, g0.arg(t_, 1), F32_LANCZOS_T);
    lemma_scalar_kept(g0, g1, g0.arg(zph, 1), F32_HALF);
    lemma_scalar_kept(g0, g1, g0.arg(g0.arg(z, 1), 0), F32_ONE);
}

/// The Abramowitz & Stegun 7.1.26 polynomial in `t`, highest degree first.
pub open spec fn erf_coeffs() -> Seq<u32> {
    seq![ERF_A5, 0xbfba_00e2u32, 0x3fb5_f0e2, 0xbe91_a98f, 0x3e82_7906]
}

/// Node `id` of `g` is `erf(x) = sign(x) (1 - t p(t) exp(-x^2))`, `t = 1 / (1 + P |x|)`.
pub open spec fn is_erf_of(g: Graph, id: NodeId, x: NodeId) -> bool {
    let s = g.arg(id, 0);
    let y = g.arg(id, 1);
    let one = g.arg(y, 0);
    let pe = g.arg(g.arg(y, 1), 0);
    let poly = g.arg(pe, 0);
    let e = g.arg(pe, 1);
    let hp = g.arg(poly, 0);
    let t = g.arg(poly, 1);
    let den = g.arg(t, 0);
    let pa = g.arg(den, 1);
    let a = g.arg(pa, 1);
    let nx2 = g.arg(g.arg(e, 0), 0);
    let x2 = g.arg(nx2, 0);
    &&& g.node_is(id, Op::Mul, seq![s, y])
    &&& is_sign_of(g, s, x)
    &&& g.node_is(y, Op::Add, seq![one, g.arg(y, 1)])
    &&& is_scalar_of(g, one, F32_ONE)
    &&& g.node_is(g.arg(y, 1), Op::Neg, seq![pe])
    &&& g.node_is(pe, Op::Mul, seq![poly, e])
    &&& is_exp_of(g, e, nx2)
    &&& g.node_is(nx2, Op::Neg, seq![x2])
    &&& g.node_is(x2, Op::Mul, seq![x, x])
    &&& g.node_is(poly, Op::Mul, seq![hp, t])
    &&& is_horner(g, hp, t, erf_coeffs())
    &&& g.node_is(t, Op::Recip, seq![den])
    &&& g.node_is(den, Op::Add, seq![one, pa])
    &&& g.node_is(pa, Op::Mul, seq![g.arg(pa, 0), a])
    &&& is_scalar_of(g, g.arg(pa, 0), ERF_P)
    &&& g.node_is(a, Op::Max, seq![x, g.arg(a, 1)])
    &&& g.node_is(g.arg(a, 1), Op::Neg, seq![x])
}

/// An `erf` node stays one as the graph grows.
pub proof fn lemma_erf_kept(g0: Graph, g1: Graph, id: NodeId, x: NodeId)
    requires g0.wf(), is_erf_of(g0, id, x), g1.extends(g0),
    ensures is_erf_of(g1, id, x),
{
    let y = g0.arg(id, 1);
    let pe = g0.arg(g0.arg(y, 1), 0);
    let poly = g0.arg(pe, 0);
    let e = g0.arg(pe, 1);
    let t = g0.arg(poly, 1);
    let den = g0.arg(t, 0);
    let pa = g0.arg(den, 1);
    let a = g0.arg(pa, 1);
    let nx2 = g0.arg(g0.arg(e, 0), 0);
    g0.lemma_arg_kept(g1, id, 0);
    g0.lemma_arg_kept(g1, id, 1);
    g0.lemma_arg_kept(g1, y, 0);
    g0.lemma_arg_kept(g1, y, 1);
    g0.lemma_arg_kept(g1, g0.arg(y, 1), 0);
    g0.lemma_arg_kept(g1, pe, 0);
    g0.lemma_arg_kept(g1, pe, 1);
    g0.lemma_arg_kept(g1, poly, 0);
    g0.lemma_arg_kept(g1, poly, 1);
    g0.lemma_arg_kept(g1, t, 0);
    g0.lemma_arg_kept(g1, den, 1);
    g0.lemma_arg_kept(g1, pa, 0);
    g0.lemma_arg_kept(g1, pa, 1);
    g0.lemma_arg_kept(g1, a, 1);
    g0.lemma_arg_kept(g1, e, 0);
    g0.lemma_arg_kept(g1, g0.arg(e, 0), 0);
    g0.lemma_arg_kept(g1, nx2, 0);
    lemma_sign_kept(g0, g1, g0.arg(id, 0), x);
    lemma_scalar_kept(g0, g1, g0.arg(y, 0), F32_ONE);
    lemma_scalar_kept(g0, g1, g0.arg(pa, 0), ERF_P);
    lemma_exp_kept(g0, g1, e, nx2);
    lemma_horner_kept(g0, g1, g0.arg(poly, 0), t, erf_coeffs());
}

fn erfinv_small_coeffs() -> (v: Vec<u32>)
    ensures v@ == erfinv_small_spec(),
{
    vec![0x32f1_6588, 0x34b8_4b36, 0xb66c_7357, 0xb693_5ac1, 0x3965_32db,
            0xbaa4_5408, 0xbb88_e4ef, 0x3e7c_8f63, 0x3fc0_2e2f]
}

fn erfinv_large_coeffs() -> (v: Vec<u32>)
    ensures v@ == erfinv_large_spec(),
{
    vec![0xb951_f09b, 0x38d3_b56b, 0x3ab0_dc72, 0xbb70_bde7, 0x3bbc_127b,
            0xbbf9_c5d7, 0x3c1a_a57e, 0x3f80_36db, 0x4035_4f7e]
}

/// The `I_0` polynomial in `(x/3.75)^2` for `|x| < 3.75`, highest degree first.
pub open spec fn i0_small_spec() -> Seq<u32> {
    seq![0x3b96_1ebbu32, 0x3d13_c544, 0x3e88_2da4, 0x3f9a_76c2, 0x4045_c19e, 0x4060_fff7, F32_ONE]
}

/// The `I_0` polynomial in `3.75/|x|` for `|x| >= 3.75`, highest degree first.
pub open spec fn i0_large_spec() -> Seq<u32> {
    seq![0x3b80_92f8u32, 0xbc86_f95e, 0x3cd7_e738, 0xbca8_9139, 0x3c16_1f9c,
        0xbace_860a, 0x3b13_aa41, 0x3c59_ad30, 0x3ecc_422a]
}

fn i0_small_coeffs() -> (v: Vec<u32>)
    ensures v@ == i0_small_spec(),
{
    vec![0x3b96_1ebb, 0x3d13_c544, 0x3e88_2da4, 0x3f9a_76c2, 0x4045_c19e, 0x4060_fff7, F32_ONE]
}

fn i0_large_coeffs() -> (v: Vec<u32>)
    ensures v@ == i0_large_spec(),
{
    vec![0x3b80_92f8, 0xbc86_f95e, 0x3cd7_e738, 0xbca8_9139, 0x3c16_1f9c,
            0xbace_860a, 0x3b13_aa41, 0x3c59_ad30, 0x3ecc_422a]
}

impl Graph {
    /// Horner evaluation at `t` of the polynomial with f32 coefficients `coeffs`, highest
    /// degree first.
    #[verifier::loop_isolation(false)]
    pub(crate) fn horner(&mut self, t: NodeId, coeffs: &[u32]) -> (id: NodeId)
        requires
            old(self).wf(), old(self).valid(t), old(self).dt(t).spec_is_arith(), coeffs@.len() >= 1,
            old(self).room(5 * coeffs@.len()),
        ensures
            final(self).wf(), final(self).grew(*old(self), 5 * coeffs@.len()),
            final(self).valid(id), final(self).sh(id) == old(self).sh(t), final(self).dt(id) == old(self).dt(t),
            is_horner(*final(self), id, t, coeffs@),
    {
        let ghost g0 = *self;
        let mut p = self.scalar(t, coeffs[0]);
        let mut i: usize = 1;
        assert(coeffs@.take(1) =~= seq![coeffs@[0]]);
        while i < coeffs.len()
            invariant
                1 <= i <= coeffs@.len(), self.wf(), self.grew(g0, 5 * i as nat),
                self.valid(p), self.sh(p) == g0.sh(t), self.dt(p) == g0.dt(t),
                is_horner(*self, p, t, coeffs@.take(i as int)),
            decreases coeffs@.len() - i,
        {
            let ghost g1 = *self;
            let p0 = p;
            p = ok_id(self.mul(p, t));
            let ghost g2 = *self;
            let cc = self.scalar(t, coeffs[i]);
            let ghost g3 = *self;
            p = ok_id(self.add(p, cc));
            proof {
                lemma_horner_kept(g1, *self, p0, t, coeffs@.take(i as int));
                lemma_scalar_kept(g3, *self, cc, coeffs@[i as int]);
                assert(coeffs@.take(i + 1).drop_last() =~= coeffs@.take(i as int));
                assert(coeffs@.take(i + 1).last() == coeffs@[i as int]);
            }
            i = i + 1;
        }
        assert(coeffs@.take(coeffs@.len() as int) =~= coeffs@);
        p
    }

    /// `c * x` for an f32 constant `c`.
    fn scale(&mut self, x: NodeId, c: u32) -> (id: NodeId)
        requires old(self).wf(), old(self).valid(x), old(self).dt(x).spec_is_arith(), old(self).room(4),
        ensures
            final(self).wf(), final(self).grew(*old(self), 4),
            final(self).valid(id), final(self).sh(id) == old(self).sh(x), final(self).dt(id) == old(self).dt(x),
    {
        let cc = self.scalar(x, c);
        ok_id(self.mul(x, cc))
    }

    /// Error function `erf(x)` (Abramowitz & Stegun 7.1.26) on a float tensor.
    #[verifier::spinoff_prover]
    #[verifier::rlimit(80)]
    pub fn erf(&mut self, x: NodeId) -> (id: NodeId)
        requires old(self).wf(), old(self).room(70), old(self).valid(x), old(self).dt(x).spec_is_float(),
        ensures
            final(self).wf(), final(self).grew(*old(self), 70),
            final(self).valid(id), final(self).sh(id) == old(self).sh(x), final(self).dt(id) == old(self).dt(x),
            is_erf_of(*final(self), id, x),
    {
        let a = self.abs(x);
        let p = self.scalar(a, ERF_P);
        let ghost gk1 = *self;
        let pa = ok_id(self.mul(p, a));
        let one = self.scalar(a, F32_ONE);
        let ghost gk2 = *self;
        let den = ok_id(self.add(one, pa));
        let t = self.recip(den);
        let coeffs: Vec<u32> = vec![ERF_A5, 0xbfba_00e2, 0x3fb5_f0e2, 0xbe91_a98f, 0x3e82_7906];
        assert(coeffs@ =~= erf_coeffs());
        let hp = self.horner(t, coeffs.as_slice());
        let ghost gh = *self;
        let poly = ok_id(self.mul(hp, t));
        let x2 = self.square(x);
        let nx2 = self.neg(x2);
        let e = self.exp(nx2);
        let ghost gk3 = *self;
        let pe = ok_id(self.mul(poly, e));
        let y = ok_id(self.sub(one, pe));
        let s = self.sign(x);
        let ghost gk4 = *self;
        let res_id = ok_id(self.mul(s, y));
        proof {
            lemma_horner_kept(gh, *self, hp, t, erf_coeffs());
            lemma_scalar_kept(gk1, *self, p, ERF_P);
            lemma_scalar_kept(gk2, *self, one, F32_ONE);
            lemma_exp_kept(gk3, *self, e, nx2);
            lemma_sign_kept(gk4, *self, s, x);
        }
        res_id
    }

    /// Complementary error function `1 - erf(x)` on a float tensor.
    pub fn erfc(&mut self, x: NodeId) -> (id: NodeId)
        requires old(self).wf(), old(self).room(75), old(self).valid(x), old(self).dt(x).spec_is_float(),
        ensures
            final(self).wf(), final(self).grew(*old(self), 75),
            final(self).valid(id), final(self).sh(id) == old(self).sh(x), final(self).dt(id) == old(self).dt(x),
            final(self).node_is(id, Op::Add, seq![final(self).arg(id, 0), final(self).arg(id, 1)])
                && is_scalar_of(*final(self), final(self).arg(id, 0), F32_ONE)
                && final(self).node_is(final(self).arg(id, 1), Op::Neg, seq![final(self).arg(final(self).arg(id, 1), 0)])
                && is_erf_of(*final(self), final(self).arg(final(self).arg(id, 1), 0), x),
    {
        let e = self.erf(x);
        let ghost gk1 = *self;
        let one = self.scalar(e, F32_ONE);
        let ghost gk2 = *self;
        let res_id = ok_id(self.sub(one, e));
        proof {
            lemma_erf_kept(gk1, *self, e, x);
            lemma_scalar_kept(gk2, *self, one, F32_ONE);
        }
        res_id
    }

    /// Log-gamma `ln Gamma(x)` for `x > 0` (Lanczos, g = 7) on a float tensor.
    #[verifier::loop_isolation(false)]
    #[verifier::spinoff_prover]
    #[verifier::rlimit(80)]
    pub fn lgamma(&mut self, x: NodeId) -> (id: NodeId)
        requires old(self).wf(), old(self).room(130), old(self).valid(x), old(self).dt(x).spec_is_float(),
        ensures
            final(self).wf(), final(self).grew(*old(self), 130),
            final(self).valid(id), final(self).sh(id) == old(self).sh(x), final(self).dt(id) == old(self).dt(x),
            is_lgamma_of(*final(self), id, x),
    {
        let ghost g0 = *self;
        let c: Vec<u32> = vec![
            0x3f80_0000, 0x4429_214e, 0xc49d_6474, 0x4440_d4b3, 0xc330_9d72,
            0x4148_1e14, 0xbe0d_e595, 0x3727_828a, 0x3421_aa84,
        ];
        let one = self.scalar(x, F32_ONE);
        let ghost g_one = *self;
        let z = ok_id(self.sub(x, one));
        let ghost g_z = *self;
        proof { lemma_scalar_kept(g_one, g_z, one, F32_ONE); }
        let mut a = self.scalar(z, c[0]);
        let mut i: usize = 1;
        while i < 9
            invariant
                self.extends(g_z),
                1 <= i <= 9, c@.len() == 9, self.wf(), self.grew(g0, (10 * i - 2) as nat),
                self.valid(z), self.sh(z) == g0.sh(x), self.dt(z) == g0.dt(x),
                self.valid(a), self.sh(a) == g0.sh(x), self.dt(a) == g0.dt(x),
            decreases 9 - i,
        {
            let off = self.scalar(z, small_int_f32(i));
            let d = ok_id(self.add(z, off));
            let r = self.recip(d);
            let term = self.scale(r, c[i]);
            a = ok_id(self.add(a, term));
            i = i + 1;
        }
        let tc = self.scalar(z, F32_LANCZOS_T);
        let ghost g1 = *self;
        let t = ok_id(self.add(z, tc));
        let lt = self.ln(t);
        let ghost g2 = *self;
        let zh = self.scalar(z, F32_HALF);
        let ghost g3 = *self;
        let zph = ok_id(self.add(z, zh));
        let term1 = ok_id(self.mul(zph, lt));
        let la = self.ln(a);
        let ghost g4 = *self;
        let c0 = self.scalar(z, F32_HALF_LN_TAU);
        let ghost g5 = *self;
        let s1 = ok_id(self.add(c0, term1));
        let s2 = ok_id(self.sub(s1, t));
        let res = ok_id(self.add(s2, la));
        proof {
            lemma_scalar_kept(g1, *self, tc, F32_LANCZOS_T);
            lemma_ln_kept(g2, *self, lt, t);
            lemma_scalar_kept(g3, *self, zh, F32_HALF);
            lemma_ln_kept(g4, *self, la, a);
            lemma_scalar_kept(g5, *self, c0, F32_HALF_LN_TAU);
            lemma_scalar_kept(g_z, *self, one, F32_ONE);
            g_z.lemma_arg_kept(*self, z, 1);
        }
        res
    }

    /// Gamma `exp(lgamma(x))` for `x > 0` on a float tensor.
    pub fn gamma(&mut self, x: NodeId) -> (id: NodeId)
        requires old(self).wf(), old(self).room(135), old(self).valid(x), old(self).dt(x).spec_is_float(),
        ensures
            final(self).wf(), final(self).grew(*old(self), 135),
            final(self).valid(id), final(self).sh(id) == old(self).sh(x), final(self).dt(id) == old(self).dt(x),
            is_exp_of(*final(self), id, final(self).arg(final(self).arg(id, 0), 0))
                && is_lgamma_of(*final(self), final(self).arg(final(self).arg(id, 0), 0), x),
    {
        let lg = self.lgamma(x);
        let ghost g1 = *self;
        let res = self.exp(lg);
        proof { lemma_lgamma_kept(g1, *self, lg, x); }
        res
    }

    /// Beta `B(a, b) = exp(lgamma(a) + lgamma(b) - lgamma(a + b))` for positive arguments.
    #[verifier::spinoff_prover]
    #[verifier::rlimit(60)]
    pub fn beta(&mut self, a: NodeId, b: NodeId) -> (r: Result<NodeId, Error>)
        requires
            old(self).wf(), old(self).room(400), old(self).valid(a), old(self).valid(b),
            old(self).dt(a).spec_is_float(), old(self).dt(b).spec_is_float(),
        ensures
            final(self).wf(), final(self).grew(*old(self), 400),
            r is Ok <==> old(self).same_sd(a, b),
            r matches Ok(id) ==> final(self).valid(id) && final(self).sh(id) == old(self).sh(a)
                && final(self).dt(id) == old(self).dt(a),
            r matches Ok(id) ==> ({
                let g = *final(self);
                let d = g.arg(g.arg(id, 0), 0);
                let s = g.arg(d, 0);
                let lab = g.arg(g.arg(d, 1), 0);
                &&& is_exp_of(g, id, d)
                &&& g.node_is(d, Op::Add, seq![s, g.arg(d, 1)])
                &&& g.node_is(g.arg(d, 1), Op::Neg, seq![lab])
                &&& g.node_is(s, Op::Add, seq![g.arg(s, 0), g.arg(s, 1)])
                &&& is_lgamma_of(g, g.arg(s, 0), a)
                &&& is_lgamma_of(g, g.arg(s, 1), b)
                &&& is_lgamma_of(g, lab, lgamma_input(g, lab))
                &&& g.node_is(lgamma_input(g, lab), Op::Add, seq![a, b])
            }),
    {
        let la = self.lgamma(a);
        let ghost g1 = *self;
        let lb = self.lgamma(b);
        let ghost g2 = *self;
        let ab = self.add(a, b)?;
        let lab = self.lgamma(ab);
        let ghost g3 = *self;
        let s = ok_id(self.add(la, lb));
        let d = ok_id(self.sub(s, lab));
        let res = self.exp(d);
        proof {
            lemma_lgamma_kept(g1, *self, la, a);
            lemma_lgamma_kept(g2, *self, lb, b);
            lemma_lgamma_kept(g3, *self, lab, ab);
        }
        Ok(res)
    }

    /// Digamma `psi(x)` for `x > 0`: six recurrence steps, then the asymptotic series.
    #[verifier::loop_isolation(false)]
    #[verifier::spinoff_prover]
    #[verifier::rlimit(80)]
    pub fn digamma(&mut self, x: NodeId) -> (id: NodeId)
        requires old(self).wf(), old(self).room(90), old(self).valid(x), old(self).dt(x).spec_is_float(),
        ensures
            final(self).wf(), final(self).grew(*old(self), 90),
            final(self).valid(id), final(self).sh(id) == old(self).sh(x), final(self).dt(id) == old(self).dt(x),
    {
        let ghost g0 = *self;
        let mut corr = self.recip(x);
        let mut k: usize = 1;
        while k < 6
            invariant
                1 <= k <= 6, self.wf(), self.grew(g0, 1 + 6 * k as nat),
                self.valid(corr), self.sh(corr) == g0.sh(x), self.dt(corr) == g0.dt(x),
            decreases 6 - k,
        {
            let off = self.scalar(x, small_int_f32(k));
            let xk = ok_id(self.add(x, off));
            let r = self.recip(xk);
            corr = ok_id(self.add(corr, r));
            k = k + 1;
        }
        let corr = self.neg(corr);
        let six = self.scalar(x, F32_6);
        let y = ok_id(self.add(x, six));
        let ly = self.ln(y);
        let iy = self.recip(y);
        let iy2 = ok_id(self.mul(iy, iy));
        let iy4 = ok_id(self.mul(iy2, iy2));
        let iy6 = ok_id(self.mul(iy4, iy2));
        let t1 = self.scale(iy, 0xbf00_0000);
        let t2 = self.scale(iy2, 0xbdaa_aaab);
        let t3 = self.scale(iy4, 0x3c08_8889);
        let t4 = self.scale(iy6, 0xbb82_0821);
        let r = ok_id(self.add(ly, t1));
        let r = ok_id(self.add(r, t2));
        let r = ok_id(self.add(r, t3));
        let r = ok_id(self.add(r, t4));
        ok_id(self.add(r, corr))
    }

    /// The Horner evaluation of `coeffs` (two or more, highest degree first) in `t - c`,
    /// `c` the f32 constant `shift`.
    fn shifted_horner(&mut self, t: NodeId, shift: u32, coeffs: &[u32]) -> (id: NodeId)
        requires
            old(self).wf(), old(self).valid(t), old(self).dt(t).spec_is_float(), coeffs@.len() >= 2,
            old(self).room(5 * coeffs@.len() + 5),
        ensures
            final(self).wf(), final(self).grew(*old(self), 5 * coeffs@.len() + 5),
            final(self).valid(id), final(self).sh(id) == old(self).sh(t), final(self).dt(id) == old(self).dt(t),
            is_shifted_horner(*final(self), id, t, shift, coeffs@),
            shifted_input(*final(self), id) == t,
    {
        let c = self.scalar(t, shift);
        let ghost g1 = *self;
        let ts = ok_id(self.sub(t, c));
        let id = self.horner(ts, coeffs);
        proof { lemma_scalar_kept(g1, *self, c, shift); }
        id
    }

    /// Inverse error function on `(-1, 1)` (Giles 2010, single precision) on a float tensor.
    #[verifier::spinoff_prover]
    #[verifier::rlimit(100)]
    pub fn erfinv(&mut self, x: NodeId) -> (id: NodeId)
        requires old(self).wf(), old(self).room(140), old(self).valid(x), old(self).dt(x).spec_is_float(),
        ensures
            final(self).wf(), final(self).grew(*old(self), 140),
            final(self).valid(id), final(self).sh(id) == old(self).sh(x), final(self).dt(id) == old(self).dt(x),
            ({
                let g = *final(self);
                let p = g.arg(id, 0);
                let small = g.arg(p, 0);
                let p_s = g.arg(p, 1);
                let p_l = g.arg(p, 2);
                let w = g.arg(small, 0);
                let lm = g.arg(w, 0);
                let om = g.arg(g.arg(lm, 0), 0);
                let x2 = g.arg(g.arg(om, 1), 0);
                let sq = shifted_input(g, p_l);
                &&& g.node_is(id, Op::Mul, seq![p, x])
                &&& g.node_is(p, Op::Where, seq![small, p_s, p_l])
                &&& g.node_is(small, Op::CmpLt, seq![w, g.arg(small, 1)])
                &&& is_scalar_of(g, g.arg(small, 1), F32_5)
                &&& g.node_is(w, Op::Neg, seq![lm])
                &&& is_ln_of(g, lm, om)
                &&& g.node_is(om, Op::Add, seq![g.arg(om, 0), g.arg(om, 1)])
                &&& is_scalar_of(g, g.arg(om, 0), F32_ONE)
                &&& g.node_is(g.arg(om, 1), Op::Neg, seq![x2])
                &&& g.node_is(x2, Op::Mul, seq![x, x])
                &&& is_shifted_horner(g, p_s, w, F32_2_5, erfinv_small_spec())
                &&& is_shifted_horner(g, p_l, sq, F32_3, erfinv_large_spec())
                &&& g.node_is(sq, Op::Sqrt, seq![w])
            }),
    {
        let x2 = self.square(x);
        let one = self.scalar(x, F32_ONE);
        let ghost g1 = *self;
        let om = ok_id(self.sub(one, x2));
        let lm = self.ln(om);
        let ghost g2 = *self;
        let w = self.neg(lm);
        let small_coeffs = erfinv_small_coeffs();
        let p_s = self.shifted_horner(w, F32_2_5, small_coeffs.as_slice());
        let ghost g4 = *self;
        let s = self.sqrt(w);
        let large_coeffs = erfinv_large_coeffs();
        let p_l = self.shifted_horner(s, F32_3, large_coeffs.as_slice());
        let ghost g6 = *self;
        let five = self.scalar(w, F32_5);
        let ghost g7 = *self;
        let small = ok_id(self.cmp_lt(w, five));
        let p = ok_id(self.select(small, p_s, p_l));
        let r = ok_id(self.mul(p, x));
        proof {
            lemma_scalar_kept(g1, *self, one, F32_ONE);
            lemma_ln_kept(g2, *self, lm, om);
            lemma_shifted_horner_kept(g4, *self, p_s, w, F32_2_5, erfinv_small_spec());
            lemma_shifted_horner_kept(g6, *self, p_l, s, F32_3, erfinv_large_spec());
            lemma_scalar_kept(g7, *self, five, F32_5);
        }
        r
    }

    /// Modified Bessel function of the first kind, order 0 (Abramowitz & Stegun 9.8.1/9.8.2)
    /// on a float tensor.
    #[verifier::spinoff_prover]
    #[verifier::rlimit(80)]
    pub fn i0(&mut self, x: NodeId) -> (id: NodeId)
        requires old(self).wf(), old(self).room(120), old(self).valid(x), old(self).dt(x).spec_is_float(),
        ensures
            final(self).wf(), final(self).grew(*old(self), 120),
            final(self).valid(id), final(self).sh(id) == old(self).sh(x), final(self).dt(id) == old(self).dt(x),
            ({
                let g = *final(self);
                let lt = g.arg(id, 0);
                let small = g.arg(id, 1);
                let large = g.arg(id, 2);
                let ax = g.arg(lt, 0);
                let pref = g.arg(large, 0);
                let poly = g.arg(large, 1);
                let ex = g.arg(pref, 0);
                let sq = g.arg(g.arg(pref, 1), 0);
                &&& g.node_is(id, Op::Where, seq![lt, small, large])
                &&& g.node_is(lt, Op::CmpLt, seq![ax, g.arg(lt, 1)])
                &&& is_scalar_of(g, g.arg(lt, 1), F32_3_75)
                &&& g.node_is(ax, Op::Max, seq![x, g.arg(ax, 1)])
                &&& g.node_is(g.arg(ax, 1), Op::Neg, seq![x])
                &&& is_horner(g, small, g.arg(g.arg(small, 0), 1), i0_small_spec())
                &&& g.node_is(large, Op::Mul, seq![pref, poly])
                &&& is_horner(g, poly, g.arg(g.arg(poly, 0), 1), i0_large_spec())
                &&& g.node_is(pref, Op::Mul, seq![ex, g.arg(pref, 1)])
                &&& g.node_is(g.arg(pref, 1), Op::Recip, seq![sq])
                &&& is_exp_of(g, ex, ax)
                &&& g.node_is(sq, Op::Sqrt, seq![ax])
            }),
    {
        let ax = self.abs(x);
        let c = self.scalar(ax, 0x3e88_8889);
        let s = ok_id(self.mul(ax, c));
        let ts = ok_id(self.mul(s, s));
        let small_coeffs = i0_small_coeffs();
        let small = self.horner(ts, small_coeffs.as_slice());
        let ghost g1 = *self;
        let c = self.scalar(ax, F32_3_75);
        let tl = ok_id(self.div(c, ax));
        let large_coeffs = i0_large_coeffs();
        let poly = self.horner(tl, large_coeffs.as_slice());
        let ghost g2 = *self;
        let ex = self.exp(ax);
        let ghost g3 = *self;
        let sq = self.sqrt(ax);
        let pref = ok_id(self.div(ex, sq));
        let large = ok_id(self.mul(pref, poly));
        let c = self.scalar(ax, F32_3_75);
        let ghost g4 = *self;
        let lt = ok_id(self.cmp_lt(ax, c));
        let res = ok_id(self.select(lt, small, large));
        proof {
            lemma_horner_kept(g1, *self, small, ts, i0_small_spec());
            lemma_horner_kept(g2, *self, poly, tl, i0_large_spec());
            lemma_exp_kept(g3, *self, ex, ax);
            lemma_scalar_kept(g4, *self, c, F32_3_75);
        }
        res
    }
}

} // verus!
