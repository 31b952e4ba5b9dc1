//! Random sampling: the `RandUniform` primitive and the normal, range, integer,
//! Bernoulli and dropout draws built on it (Box-Muller, affine maps). Reproducible given the
//! seed. Float parameters are f32 bit patterns; host-side f32 arithmetic on them is written
//! as graph ops on F32 unit constants.

use vstd::prelude::*;
use crate::dtype::DType;
use crate::error::{Error, ErrorKind};
use crate::graph::{Graph, NodeId, Op};
use crate::graph::op::{op_eq, copy_vec};
use crate::graph::f32bits::i64_f32_bits;
use crate::graph::ops::base::scalar::{ok_id, is_scalar_of, is_bool_scalar, lemma_scalar_kept, lemma_bool_scalar_kept, F32_ONE};
use crate::graph::ops::base::nd::i64_storage;
use crate::graph::ops::base::scalar::{is_f32_unit, spread_source};
use crate::graph::ops::base::explog::{is_ln_of, lemma_ln_kept};
use crate::graph::ops::base::trig::{is_cos_of, lemma_cos_kept};
use crate::graph::ops::base::signal::is_diff_of;
use crate::bytes::le_u64;

verus! {

/// `1e-7` as f32: the floor that keeps `ln` of a uniform draw finite.
pub const F32_UNIFORM_FLOOR: u32 = 0x33d6_bf95;
/// `-2` as f32.
pub const F32_NEG_TWO: u32 = 0xc000_0000;
/// `2 pi` as f32.
pub const F32_TAU: u32 = 0x40c9_0fdb;
/// The seed of the second Box-Muller stream is the first one xor this.
pub const SEED_MIX: u64 = 0xD1B5_4A32_D192_ED03;

/// Node `id` of `g` is a uniform `[0, 1)` draw of shape `s` from the fixed `seed`: a
/// `RandUniform` node fed by the one-element I64 constant `seed`.
pub open spec fn is_uniform_of(g: Graph, id: NodeId, s: Seq<usize>, seed: u64) -> bool {
    let c = g.arg(id, 0);
    &&& g.valid(id) && g.srcs(id).len() == 1
    &&& g.opn(id) matches Op::RandUniform { shape } && shape@ == s
    &&& g.opn(c) matches Op::Const { data, shape } && shape@ == seq![1usize]
        && data.spec_dtype() == DType::I64 && data.spec_bytes() == le_u64(seed)
}

/// A uniform draw stays one as the graph grows.
pub proof fn lemma_uniform_kept(g0: Graph, g1: Graph, id: NodeId, s: Seq<usize>, seed: u64)
    requires g0.wf(), is_uniform_of(g0, id, s, seed), g1.extends(g0),
    ensures is_uniform_of(g1, id, s, seed),
{
    g0.lemma_arg_kept(g1, id, 0);
}

/// Node `id` of `g` is `lo + (hi - lo) u` for the uniform draw `u` of shape `s` from `seed`,
/// `hi - lo` taken between F32 unit constants.
pub open spec fn is_range_draw_of(g: Graph, id: NodeId, s: Seq<usize>, seed: u64, lo: u32, hi: u32) -> bool {
    let su = g.arg(id, 0);
    let u = g.arg(su, 0);
    let scale = g.arg(su, 1);
    let span = spread_source(g, scale);
    &&& g.node_is(id, Op::Add, seq![su, g.arg(id, 1)]) && is_scalar_of(g, g.arg(id, 1), lo)
    &&& g.node_is(su, Op::Mul, seq![u, scale]) && is_uniform_of(g, u, s, seed)
    &&& g.opn(scale) is Expand && g.srcs(scale).len() == 1
    &&& is_diff_of(g, span, g.arg(span, 0), g.arg(g.arg(span, 1), 0))
    &&& is_f32_unit(g, g.arg(span, 0), hi) && is_f32_unit(g, g.arg(g.arg(span, 1), 0), lo)
}

/// A range draw stays one as the graph grows.
pub proof fn lemma_range_draw_kept(g0: Graph, g1: Graph, id: NodeId, s: Seq<usize>, seed: u64, lo: u32, hi: u32)
    requires g0.wf(), is_range_draw_of(g0, id, s, seed, lo, hi), g1.extends(g0),
    ensures is_range_draw_of(g1, id, s, seed, lo, hi),
{
    let su = g0.arg(id, 0);
    let scale = g0.arg(su, 1);
    g0.lemma_arg_kept(g1, id, 0);
    g0.lemma_arg_kept(g1, id, 1);
    lemma_scalar_kept(g0, g1, g0.arg(id, 1), lo);
    g0.lemma_arg_kept(g1, su, 0);
    g0.lemma_arg_kept(g1, su, 1);
    lemma_uniform_kept(g0, g1, g0.arg(su, 0), s, seed);
    g0.lemma_arg_kept(g1, scale, 0);
    let span = spread_source(g0, scale);
    g0.lemma_node_kept(g1, span);
    g0.lemma_arg_kept(g1, span, 0);
    g0.lemma_arg_kept(g1, span, 1);
    g0.lemma_arg_kept(g1, g0.arg(span, 1), 0);
    assert(spread_source(g1, scale) == span);
    reveal(is_f32_unit);
}

/// Node `id` of `g` is an F32 Bernoulli mask of shape `s` from `seed`: one where the uniform
/// draw is below the probability `p`.
pub open spec fn is_bernoulli_of(g: Graph, id: NodeId, s: Seq<usize>, seed: u64, p: u32) -> bool {
    let lt = g.arg(id, 0);
    let u = g.arg(lt, 0);
    &&& g.node_is(id, Op::Cast { to: DType::F32 }, seq![lt])
    &&& g.node_is(lt, Op::CmpLt, seq![u, g.arg(lt, 1)]) && is_scalar_of(g, g.arg(lt, 1), p)
    &&& is_uniform_of(g, u, s, seed)
}

impl Graph {
    /// A uniform `[0, 1)` F32 tensor of `shape` from the fixed `seed` (held in a one-element
    /// I64 constant that feeds the `RandUniform` node).
    pub fn rand_uniform(&mut self, shape: Vec<usize>, seed: u64) -> (id: NodeId)
        requires old(self).wf(), old(self).room(2),
        ensures
            final(self).wf(), final(self).grew(*old(self), 2),
            final(self).valid(id), final(self).sh(id) == shape@, final(self).dt(id) == DType::F32,
            op_eq(final(self).opn(id), Op::RandUniform { shape }),
            final(self).srcs(id).len() == 1 && final(self).dt(final(self).srcs(id)[0]) == DType::I64,
            is_uniform_of(*final(self), id, shape@, seed),
    {
        let one: Vec<usize> = vec![1];
        assert(one@ =~= seq![1usize]);
        let s = self.const_storage(i64_storage(seed), one);
        let ghost g1 = *self;
        let v = vec![s];
        assert(v@ =~= seq![s]);
        let id = self.push(Op::RandUniform { shape }, v);
        proof { g1.lemma_node_kept(*self, s); }
        id
    }

    /// A uniform `[0, 1)` F32 tensor of `shape` seeded by the runtime integer node `seed`.
    pub fn rand_uniform_keyed(&mut self, shape: Vec<usize>, seed: NodeId) -> (r: Result<NodeId, Error>)
        requires old(self).wf(), old(self).room(1), old(self).valid(seed),
        ensures
            final(self).wf(),
            r is Ok <==> old(self).dt(seed).spec_is_int(),
            r matches Ok(id) ==> final(self).pushed(*old(self), id, Op::RandUniform { shape }, seq![seed])
                && final(self).sh(id) == shape@ && final(self).dt(id) == DType::F32,
            r is Err ==> *final(self) == *old(self),
    {
        if !self.dtype(seed).is_int() {
            return Err(Error::new("rand_uniform", ErrorKind::DTypeClass(self.dtype(seed))));
        }
        let v = vec![seed];
        assert(v@ =~= seq![seed]);
        Ok(self.push(Op::RandUniform { shape }, v))
    }

    /// Standard normal draws by Box-Muller: `sqrt(-2 ln u1) cos(2 pi u2)`, `u1` floored at
    /// `1e-7`, `u2` from the seed mixed with `SEED_MIX`.
    #[verifier::spinoff_prover]
    #[verifier::rlimit(30)]
    pub fn randn(&mut self, shape: Vec<usize>, seed: u64) -> (id: NodeId)
        requires old(self).wf(), old(self).room(28),
        ensures
            final(self).wf(), final(self).grew(*old(self), 28),
            final(self).valid(id), final(self).sh(id) == shape@, final(self).dt(id) == DType::F32,
            ({
                let g = *final(self);
                let r = g.arg(id, 0);
                let c = g.arg(id, 1);
                let r2 = g.arg(r, 0);
                let lu = g.arg(r2, 0);
                let u1c = g.arg(g.arg(lu, 0), 0);
                let u1 = g.arg(u1c, 0);
                let ang = g.arg(g.arg(c, 0), 0);
                let u2 = g.arg(ang, 0);
                &&& g.node_is(id, Op::Mul, seq![r, c])
                &&& g.node_is(r, Op::Sqrt, seq![r2])
                &&& g.node_is(r2, Op::Mul, seq![lu, g.arg(r2, 1)]) && is_scalar_of(g, g.arg(r2, 1), F32_NEG_TWO)
                &&& is_ln_of(g, lu, u1c)
                &&& g.node_is(u1c, Op::Max, seq![u1, g.arg(u1c, 1)]) && is_scalar_of(g, g.arg(u1c, 1), F32_UNIFORM_FLOOR)
                &&& is_uniform_of(g, u1, shape@, seed)
                &&& is_cos_of(g, c, ang)
                &&& g.node_is(ang, Op::Mul, seq![u2, g.arg(ang, 1)]) && is_scalar_of(g, g.arg(ang, 1), F32_TAU)
                &&& is_uniform_of(g, u2, shape@, seed ^ SEED_MIX)
            }),
    {
        let u1 = self.rand_uniform(copy_vec(&shape), seed);
        let ghost g1 = *self;
        let u1c = ok_id(self.clamp_min(u1, F32_UNIFORM_FLOOR));
        let ghost g2 = *self;
        let u2 = self.rand_uniform(shape, seed ^ SEED_MIX);
        let ghost g3 = *self;
        let lu = self.ln(u1c);
        let ghost g4 = *self;
        let m2 = self.scalar(lu, F32_NEG_TWO);
        let ghost g5 = *self;
        let r2 = ok_id(self.mul(lu, m2));
        let ghost g6 = *self;
        let r = self.sqrt(r2);
        let ghost g7 = *self;
        let tau = self.scalar(u2, F32_TAU);
        let ghost g8 = *self;
        let ang = ok_id(self.mul(u2, tau));
        let ghost g9 = *self;
        let c = self.cos(ang);
        let ghost g10 = *self;
        let res = ok_id(self.mul(r, c));
        proof {
            lemma_uniform_kept(g1, *self, u1, shape@, seed);
            g2.lemma_node_kept(*self, u1c);
            g2.lemma_arg_kept(*self, u1c, 1);
            lemma_scalar_kept(g2, *self, g2.arg(u1c, 1), F32_UNIFORM_FLOOR);
            lemma_uniform_kept(g3, *self, u2, shape@, seed ^ SEED_MIX);
            lemma_ln_kept(g4, *self, lu, u1c);
            lemma_scalar_kept(g5, *self, m2, F32_NEG_TWO);
            g6.lemma_node_kept(*self, r2);
            g7.lemma_node_kept(*self, r);
            lemma_scalar_kept(g8, *self, tau, F32_TAU);
            g9.lemma_node_kept(*self, ang);
            lemma_cos_kept(g10, *self, c, ang);
        }
        res
    }

    /// Uniform draws on `[lo, hi)`: `lo + (hi - lo) u`, with `hi - lo` rounded in f32.
    #[verifier::spinoff_prover]
    pub fn rand_range(&mut self, shape: Vec<usize>, seed: u64, lo: u32, hi: u32) -> (id: NodeId)
        requires old(self).wf(), old(self).room(13),
        ensures
            final(self).wf(), final(self).grew(*old(self), 13),
            final(self).valid(id), final(self).sh(id) == shape@, final(self).dt(id) == DType::F32,
            is_range_draw_of(*final(self), id, shape@, seed, lo, hi),
    {
        let u = self.rand_uniform(shape, seed);
        let ghost g1 = *self;
        let hi_u = self.f32_unit(u, hi);
        let ghost g2 = *self;
        let lo_u = self.f32_unit(u, lo);
        let ghost g3 = *self;
        let span_u = ok_id(self.sub(hi_u, lo_u));
        let ghost g4 = *self;
        let scale = self.spread_like(span_u, u);
        let ghost g5 = *self;
        let su = ok_id(self.mul(u, scale));
        let ghost g6 = *self;
        let off = self.scalar(su, lo);
        let ghost g7 = *self;
        let res = ok_id(self.add(su, off));
        proof {
            lemma_uniform_kept(g1, *self, u, shape@, seed);
            g2.lemma_node_kept(*self, hi_u);
            g3.lemma_node_kept(*self, lo_u);
            g4.lemma_node_kept(*self, span_u);
            g4.lemma_arg_kept(*self, span_u, 1);
            g5.lemma_node_kept(*self, scale);
            g5.lemma_arg_kept(*self, scale, 0);
            assert(spread_source(*self, scale) == span_u);
            reveal(is_f32_unit);
            g6.lemma_node_kept(*self, su);
            lemma_scalar_kept(g7, *self, off, lo);
        }
        res
    }

    /// Random integers on `[lo, hi)` as I64: `floor(lo + (hi - lo) u)` with the bounds
    /// converted to f32.
    pub fn randint(&mut self, shape: Vec<usize>, seed: u64, lo: i64, hi: i64) -> (id: NodeId)
        requires old(self).wf(), old(self).room(15),
        ensures
            final(self).wf(), final(self).grew(*old(self), 15),
            final(self).valid(id), final(self).sh(id) == shape@, final(self).dt(id) == DType::I64,
            ({
                let g = *final(self);
                let f = g.arg(id, 0);
                &&& g.node_is(id, Op::Cast { to: DType::I64 }, seq![f])
                &&& g.node_is(f, Op::Floor, seq![g.arg(f, 0)])
                &&& exists|lb: u32, hb: u32| #[trigger] is_range_draw_of(g, g.arg(f, 0), shape@, seed, lb, hb)
            }),
    {
        let lb = i64_f32_bits(lo);
        let hb = i64_f32_bits(hi);
        let r = self.rand_range(shape, seed, lb, hb);
        let ghost g1 = *self;
        let f = self.floor(r);
        let ghost g2 = *self;
        let res = self.cast(f, DType::I64);
        proof {
            lemma_range_draw_kept(g1, *self, r, shape@, seed, lb, hb);
            g2.lemma_node_kept(*self, f);
            assert(is_range_draw_of(*self, self.arg(f, 0), shape@, seed, lb, hb));
        }
        res
    }

    /// A Bernoulli mask (F32 ones and zeros): one where the uniform draw is below `p`.
    pub fn bernoulli(&mut self, shape: Vec<usize>, seed: u64, p: u32) -> (r: Result<NodeId, Error>)
        requires old(self).wf(), old(self).room(7),
        ensures
            final(self).wf(), final(self).grew(*old(self), 7),
            r is Ok,
            r matches Ok(id) ==> final(self).valid(id) && final(self).sh(id) == shape@
                && final(self).dt(id) == DType::F32,
            r matches Ok(id) ==> is_bernoulli_of(*final(self), id, shape@, seed, p),
    {
        let u = self.rand_uniform(shape, seed);
        let ghost g1 = *self;
        let pc = self.scalar(u, p);
        let ghost g2 = *self;
        let lt = self.cmp_lt(u, pc)?;
        let ghost g3 = *self;
        let res = self.cast(lt, DType::F32);
        proof {
            lemma_uniform_kept(g1, *self, u, shape@, seed);
            lemma_scalar_kept(g2, *self, pc, p);
            g3.lemma_node_kept(*self, lt);
        }
        Ok(res)
    }

    /// Inverted dropout: each element zeroed where the draw is below `p`, survivors scaled by
    /// `1 / (1 - p)` (rounded in f32), so the expectation is unchanged.
    #[verifier::spinoff_prover]
    #[verifier::rlimit(30)]
    pub fn dropout(&mut self, x: NodeId, p: u32, seed: u64) -> (r: Result<NodeId, Error>)
        requires old(self).wf(), old(self).room(20), old(self).valid(x),
        ensures
            final(self).wf(), final(self).grew(*old(self), 20),
            r is Ok <==> old(self).dt(x).spec_is_arith(),
            r matches Ok(id) ==> final(self).valid(id) && final(self).sh(id) == old(self).sh(x)
                && final(self).dt(id) == old(self).dt(x),
            r matches Ok(id) ==> ({
                let g = *final(self);
                let xm = g.arg(id, 0);
                let mask = g.arg(xm, 1);
                let keep = g.arg(mask, 0);
                let lt = g.arg(keep, 0);
                let u = g.arg(lt, 0);
                &&& g.node_is(id, Op::Mul, seq![xm, g.arg(id, 1)])
                &&& g.node_is(xm, Op::Mul, seq![x, mask])
                &&& g.opn(mask) == (Op::Cast { to: old(self).dt(x) }) && g.srcs(mask) == seq![keep]
                &&& g.node_is(keep, Op::Xor, seq![lt, g.arg(keep, 1)])
                &&& is_bool_scalar(g, g.arg(keep, 1), true)
                &&& g.node_is(lt, Op::CmpLt, seq![u, g.arg(lt, 1)])
                &&& g.opn(u) is RandUniform && g.sh(u) == old(self).sh(x)
                &&& is_scalar_of(g, g.arg(lt, 1), p)
                &&& g.opn(g.arg(id, 1)) is Expand
            }),
    {
        let shape = self.shape(x);
        let dt = self.dtype(x);
        let u = self.rand_uniform(shape, seed);
        let pc = self.scalar(u, p);
        let ghost g1 = *self;
        let keep = ok_id(self.ge(u, pc));
        let ghost g2 = *self;
        let mask = self.cast(keep, dt);
        let xm = self.mul(x, mask)?;
        let one_u = self.f32_unit(xm, F32_ONE);
        let p_u = self.f32_unit(xm, p);
        let q_u = ok_id(self.sub(one_u, p_u));
        let inv_u = ok_id(self.div(one_u, q_u));
        let scale = self.spread_like(inv_u, xm);
        let res = self.mul(xm, scale);
        proof {
            lemma_scalar_kept(g1, *self, pc, p);
            g2.lemma_arg_kept(*self, keep, 0);
            g2.lemma_arg_kept(*self, keep, 1);
            lemma_bool_scalar_kept(g2, *self, g2.arg(keep, 1), true);
            g2.lemma_arg_valid(keep, 0);
            g2.lemma_arg_kept(*self, g2.arg(keep, 0), 0);
        }
        res
    }
}

} // verus!
