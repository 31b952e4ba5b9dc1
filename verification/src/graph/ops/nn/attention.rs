//! Attention: rotary position embedding and scaled dot-product attention, as compositions
//! of primitives, and the fused `Op::Sdpa`.

use vstd::prelude::*;
use crate::dtype::DType;
use crate::error::{Error, ErrorKind};
use crate::graph::{Graph, NodeId, Op};
use crate::graph::infer::ins_of;
use crate::graph::f32bits::{int_f32_bits, exact_int_bits};
use crate::graph::ops::base::scalar::{is_f32_unit, spread_source};
use crate::graph::ops::base::linalg::{last2, iota_seq};
use crate::graph::shape::{numel, numel_checked, ones, ones_vec, expand_ok, shapes_equal};
use crate::graph::ops::base::scalar::ok_id;
use crate::graph::ops::base::signal::{axis_ranges, axis_pads};
use crate::graph::ops::base::slicing::pad_fits;
use crate::graph::ops::base::masks::{Grid, grid_storage, is_grid_const};

verus! {

/// `-2 ln(10000)` as f32.
pub const F32_NEG_2_LN_10000: u32 = 0xc193_5d8e;
/// `pi / 2` as f32.
pub const F32_FRAC_PI_2: u32 = 0x3fc9_0fdb;
/// Score buffers above this many bytes go to the fused primitive.
pub const SDPA_FUSED_BYTES: usize = 0x4000_0000;

/// `[.., S, D]` with the `D` axis replaced by `n`.
pub open spec fn with_last(s: Seq<usize>, n: usize) -> Seq<usize> {
    s.update(s.len() - 1, n)
}

/// The inputs of the dot-product decomposition (equal ranks `r >= 2`) fit together: one
/// float dtype, equal batch axes, `q`/`k` head sizes equal, `k`/`v` key counts equal, and
/// under a causal mask the key count is the query count (or there is one query).
pub open spec fn sdpa_inputs_ok(
    qs: Seq<usize>, ks: Seq<usize>, vs: Seq<usize>, dq: DType, dk: DType, dv: DType, causal: bool,
) -> bool {
    let r = qs.len();
    &&& dq == dk && dq == dv && dq.spec_is_float()
    &&& qs.take(r - 2) == ks.take(r - 2) && ks.take(r - 2) == vs.take(r - 2)
    &&& qs[r - 1] == ks[r - 1]
    &&& ks[r - 2] == vs[r - 2]
    &&& causal ==> ks[r - 2] == qs[r - 2] || qs[r - 2] == 1
}

/// The fused primitive's inputs: one shape `[.., S, dh]` with `dh > 0`, one dtype.
pub open spec fn sdpa_fused_ok(qs: Seq<usize>, ks: Seq<usize>, vs: Seq<usize>, dq: DType, dk: DType, dv: DType) -> bool {
    &&& qs == ks && qs == vs
    &&& qs.len() >= 2 && qs[qs.len() - 1] > 0
    &&& dq == dk && dq == dv
}

/// The `[.., S, S]` f32 score buffer of the decomposition is over the fused threshold.
pub open spec fn scores_big(qs: Seq<usize>) -> bool {
    numel(qs.take(qs.len() - 2)) * qs[qs.len() - 2] * qs[qs.len() - 2] * 4 > SDPA_FUSED_BYTES
}

/// `ones(n)` with two trailing axes.
proof fn lemma_numel_ones2(n: nat, a: usize, b: usize)
    ensures numel(ones(n).push(a).push(b)) == a * b,
{
    crate::graph::shape::lemma_numel_ones(n);
    assert(ones(n).push(a).push(b).drop_last() =~= ones(n).push(a));
    assert(ones(n).push(a).drop_last() =~= ones(n));
    assert(numel(ones(n).push(a)) == numel(ones(n)) * a);
    assert(numel(ones(n).push(a).push(b)) == numel(ones(n).push(a)) * b);
    assert(ones(n) =~= Seq::new(n, |i: int| 1usize));
}

/// Node `du` of `g` is the F32 unit constant holding the head width `dh` (exactly, while
/// `dh` is below `2^24`).
pub open spec fn holds_width(g: Graph, du: NodeId, dh: usize) -> bool {
    exists|b: u32| #[trigger] is_f32_unit(g, du, b) && (dh == 0 ==> b == 0)
        && (1 <= dh < 0x100_0000 ==> exact_int_bits(b, dh as int))
}

/// Node `sc` of `g` holds the attention scores of `q` against `k` with head width `dh`: their
/// contraction times the broadcast of `1 / sqrt(dh)` (the reciprocal of the square root of
/// the constant `dh`).
pub open spec fn is_scaled_scores(g: Graph, sc: NodeId, q: NodeId, k: NodeId, dh: usize) -> bool {
    let raw = g.arg(sc, 0);
    let inv = g.arg(sc, 1);
    let rc = spread_source(g, inv);
    let sd = g.arg(rc, 0);
    let du = g.arg(sd, 0);
    &&& g.node_is(sc, Op::Mul, seq![raw, inv])
    &&& g.opn(raw) is DotGeneral && g.srcs(raw) == seq![q, k]
    &&& g.opn(inv) is Expand && g.srcs(inv).len() == 1
    &&& g.node_is(rc, Op::Recip, seq![sd])
    &&& g.node_is(sd, Op::Sqrt, seq![du])
    &&& holds_width(g, du, dh)
}

/// The attention scores are scaled by exactly one over the square root of the head width:
/// the factor is the reciprocal (not the value) of the square root (not the square) of the
/// constant `dh`, which is `dh` itself whenever `dh < 2^24`.
pub proof fn law_scores_scaled_by_inverse_sqrt_width(g: Graph, sc: NodeId, q: NodeId, k: NodeId, dh: usize)
    requires is_scaled_scores(g, sc, q, k, dh), 1 <= dh < 0x100_0000,
    ensures ({
        let rc = spread_source(g, g.arg(sc, 1));
        let du = g.arg(g.arg(rc, 0), 0);
        &&& g.opn(rc) == Op::Recip && g.opn(g.arg(rc, 0)) == Op::Sqrt
        &&& exists|b: u32| #[trigger] is_f32_unit(g, du, b) && exact_int_bits(b, dh as int)
    }),
{
}

/// Node `id` of `g` contracts, over a batch of the leading `rk - 2` axes, the last (`ta`) or
/// second-to-last axis of its first source with the last (`tb`) or second-to-last axis of
/// its second source.
pub open spec fn contracts_last2(g: Graph, id: NodeId, rk: nat, ta: bool, tb: bool) -> bool {
    g.opn(id) matches Op::DotGeneral { lhs_contract, rhs_contract, lhs_batch, rhs_batch }
        && lhs_contract@ == seq![last2(rk, ta) as usize] && rhs_contract@ == seq![last2(rk, tb) as usize]
        && lhs_batch@ == iota_seq((rk - 2) as nat) && rhs_batch@ == iota_seq((rk - 2) as nat)
}

/// Node `b` of `g` is the causal mask of `s` queries: the `s x s` constant that is `-inf`
/// above the diagonal and zero elsewhere, given the batch axes and broadcast (and converted
/// to the dtype when needed).
pub open spec fn is_causal_bias(g: Graph, b: NodeId, s: usize) -> bool {
    let e = if g.opn(b) is Cast { g.arg(b, 0) } else { b };
    let br = g.arg(e, 0);
    &&& g.valid(b) && (g.opn(b) is Cast ==> g.srcs(b).len() == 1)
    &&& g.opn(e) is Expand && g.srcs(e) == seq![br]
    &&& g.opn(br) is Reshape && g.srcs(br).len() == 1
    &&& is_grid_const(g, g.arg(br, 0), Grid::NegInfAbove, s, s)
}

/// A causal mask stays one as the graph grows.
pub proof fn lemma_causal_bias_kept(g0: Graph, g1: Graph, b: NodeId, s: usize)
    requires g0.wf(), is_causal_bias(g0, b, s), g1.extends(g0),
    ensures is_causal_bias(g1, b, s),
{
    g0.lemma_node_kept(g1, b);
    let e = if g0.opn(b) is Cast { g0.arg(b, 0) } else { b };
    if g0.opn(b) is Cast {
        g0.lemma_arg_kept(g1, b, 0);
    }
    g0.lemma_arg_kept(g1, e, 0);
    g0.lemma_arg_kept(g1, g0.arg(e, 0), 0);
}

/// Scaled scores stay so as the graph grows.
pub proof fn lemma_scaled_scores_kept(g0: Graph, g1: Graph, sc: NodeId, q: NodeId, k: NodeId, dh: usize)
    requires g0.wf(), is_scaled_scores(g0, sc, q, k, dh), g1.extends(g0),
    ensures is_scaled_scores(g1, sc, q, k, dh),
{
    reveal(is_f32_unit);
    g0.lemma_node_kept(g1, sc);
    g0.lemma_arg_kept(g1, sc, 0);
    g0.lemma_arg_kept(g1, sc, 1);
    let inv = g0.arg(sc, 1);
    g0.lemma_arg_kept(g1, inv, 0);
    let rc = spread_source(g0, inv);
    g0.lemma_node_kept(g1, rc);
    g0.lemma_arg_kept(g1, rc, 0);
    g0.lemma_arg_kept(g1, g0.arg(rc, 0), 0);
    let du = g0.arg(g0.arg(rc, 0), 0);
    let b = choose|b: u32| #[trigger] is_f32_unit(g0, du, b) && (dh == 0 ==> b == 0)
        && (1 <= dh < 0x100_0000 ==> exact_int_bits(b, dh as int));
    assert(is_f32_unit(g1, du, b));
}

impl Graph {
    /// Concatenate `a` and `b` along the last axis (`a` first), by padding each with zeros
    /// and adding: `b` is shifted right by `alen`.
    fn concat_last(&mut self, a: NodeId, b: NodeId, alen: usize) -> (r: Result<NodeId, Error>)
        requires
            old(self).wf(), old(self).room(3), old(self).valid(a), old(self).valid(b),
            old(self).sh(a).len() >= 1, old(self).sh(b).len() == old(self).sh(a).len(),
            old(self).sh(a).last() + old(self).sh(b).last() <= usize::MAX,
            alen + old(self).sh(b).last() <= usize::MAX,
        ensures
            final(self).wf(), final(self).grew(*old(self), 3),
            r is Ok <==> old(self).dt(a) == old(self).dt(b) && old(self).dt(a).spec_is_arith()
                && with_last(old(self).sh(a), (old(self).sh(a).last() + old(self).sh(b).last()) as usize)
                    == with_last(old(self).sh(b), (alen + old(self).sh(b).last()) as usize),
            r matches Ok(id) ==> final(self).valid(id) && final(self).dt(id) == old(self).dt(a)
                && final(self).sh(id) == with_last(old(self).sh(a), (old(self).sh(a).last() + old(self).sh(b).last()) as usize),
    {
        let r = self.rank(a);
        let blen = self.nodes[b.0 as usize].shape[r - 1];
        let pa = axis_pads(r, r - 1, 0, blen);
        let pb = axis_pads(r, r - 1, alen, 0);
        let ghost sa = self.sh(a);
        let ghost sb = self.sh(b);
        assert(pad_fits(sa, pa@));
        assert(pad_fits(sb, pb@));
        let ap = ok_id(self.pad(a, pa));
        assert(self.sh(ap) =~= with_last(sa, (sa.last() + sb.last()) as usize));
        let bp = ok_id(self.pad(b, pb));
        assert(self.sh(bp) =~= with_last(sb, (alen + sb.last()) as usize));
        self.add(ap, bp)
    }

    /// `[start, end)` of the last axis, every other axis whole.
    fn slice_last(&mut self, x: NodeId, start: usize, end: usize) -> (r: Result<NodeId, Error>)
        requires old(self).wf(), old(self).room(1), old(self).valid(x), old(self).sh(x).len() >= 1,
        ensures
            final(self).wf(), final(self).grew(*old(self), 1),
            r is Ok <==> start <= end <= old(self).sh(x).last(),
            r matches Ok(id) ==> final(self).valid(id) && final(self).dt(id) == old(self).dt(x)
                && final(self).sh(id) == with_last(old(self).sh(x), (end - start) as usize),
    {
        let sh = self.shape(x);
        let r = sh.len();
        let ranges = axis_ranges(&sh, r - 1, start, end);
        let ghost s = sh@;
        let res = self.slice(x, ranges);
        proof {
            if start <= end <= s.last() {
                assert forall|d: int| 0 <= d < ranges@.len() implies (#[trigger] ranges@[d]).0 <= ranges@[d].1 <= s[d] by {}
            } else {
                assert(!(ranges@[r - 1].0 <= ranges@[r - 1].1 <= s[r - 1]));
            }
            if res is Ok {
                assert(ranges@.map_values(|q: (usize, usize)| (q.1 - q.0) as usize) =~= with_last(s, (end - start) as usize));
            }
        }
        res
    }

    /// Broadcast a two-axis `[A, B]` to `target` (rank at least two, trailing axes `A`, `B`
    /// or broadcastable from them), through `[1, .., 1, A, B]`.
    fn broadcast_2d_to(&mut self, t: NodeId, target: &Vec<usize>) -> (r: Result<NodeId, Error>)
        requires
            old(self).wf(), old(self).room(2), old(self).valid(t), old(self).sh(t).len() == 2,
            target@.len() >= 2, numel(old(self).sh(t)) <= usize::MAX,
        ensures
            final(self).wf(), final(self).grew(*old(self), 2),
            r is Ok <==> expand_ok(ones((target@.len() - 2) as nat).push(old(self).sh(t)[0]).push(old(self).sh(t)[1]), target@),
            r matches Ok(id) ==> final(self).valid(id) && final(self).dt(id) == old(self).dt(t)
                && final(self).sh(id) == target@,
    {
        let ts = self.shape(t);
        let r = target.len();
        let mut full = ones_vec(r - 2);
        full.push(ts[0]);
        full.push(ts[1]);
        proof {
            lemma_numel_ones2((r - 2) as nat, ts@[0], ts@[1]);
            assert(ts@ =~= seq![ts@[0], ts@[1]]);
            assert(ts@.drop_last() =~= seq![ts@[0]]);
            assert(seq![ts@[0]].drop_last() =~= Seq::<usize>::empty());
            assert(numel(seq![ts@[0]]) == numel(Seq::<usize>::empty()) * ts@[0]);
            assert(numel(ts@) == numel(ts@.drop_last()) * ts@[1]);
        }
        let tr = ok_id(self.reshape(t, full));
        self.expand(tr, crate::graph::op::copy_vec(target))
    }

    /// The RoPE cosine and sine tables `[S, 2 (D / 2)]` (F32): angle `s * 10000^(-2i/D)` for
    /// position `s` and frequency `i < D / 2`, each half repeated; `cos` as `sin(a + pi/2)`.
    #[verifier::spinoff_prover]
    #[verifier::rlimit(40)]
    fn rope_tables(&mut self, s: usize, d: usize) -> (t: (NodeId, NodeId))
        requires old(self).wf(), old(self).room(27),
        ensures
            final(self).wf(), final(self).grew(*old(self), 27),
            final(self).valid(t.0) && final(self).sh(t.0) == seq![s, (d / 2 + d / 2) as usize] && final(self).dt(t.0) == DType::F32,
            final(self).valid(t.1) && final(self).sh(t.1) == seq![s, (d / 2 + d / 2) as usize] && final(self).dt(t.1) == DType::F32,
    {
        let half = d / 2;
        let grid: Vec<usize> = vec![s, half];
        let grid2: Vec<usize> = vec![s, half];
        let pos = ok_id(self.iota(grid, 0, DType::F32));
        let fi = ok_id(self.iota(grid2, 1, DType::F32));
        // -2 ln(10000) / D, rounded in f32
        let a_u = self.f32_unit(fi, F32_NEG_2_LN_10000);
        let d_u = self.f32_unit(fi, int_f32_bits(d as u64));
        let c_u = ok_id(self.div(a_u, d_u));
        let c = self.spread_like(c_u, fi);
        let ic = ok_id(self.mul(fi, c));
        let theta = self.exp(ic);
        let angle = ok_id(self.mul(pos, theta));
        let sin_h = self.sin(angle);
        let hp = self.scalar(angle, F32_FRAC_PI_2);
        let cos_arg = ok_id(self.add(angle, hp));
        let cos_h = self.sin(cos_arg);
        assert(self.sh(cos_h) =~= seq![s, half]);
        let cos_full = ok_id(self.concat_last(cos_h, cos_h, half));
        let sin_full = ok_id(self.concat_last(sin_h, sin_h, half));
        assert(self.sh(cos_full) =~= seq![s, (half + half) as usize]);
        assert(self.sh(sin_full) =~= seq![s, (half + half) as usize]);
        (cos_full, sin_full)
    }

    /// Rotary position embedding (NeoX / Llama) over `[.., S, D]`, positions `0..S`, base
    /// 10000: `x cos + rotate_half(x) sin` with angle `s * 10000^(-2i/D)`. Needs an even `D`
    /// and an F32 `x`.
    #[verifier::spinoff_prover]
    #[verifier::rlimit(80)]
    pub fn rope(&mut self, x: NodeId) -> (r: Result<NodeId, Error>)
        requires
            old(self).wf(), old(self).room(41), old(self).valid(x), old(self).sh(x).len() >= 2,
            old(self).dt(x).spec_is_signed() || old(self).dt(x).spec_is_complex(),
            old(self).sh(x)[old(self).sh(x).len() - 2] * old(self).sh(x).last() <= usize::MAX,
        ensures
            final(self).wf(), final(self).grew(*old(self), 41),
            r is Ok <==> old(self).sh(x).last() % 2 == 0 && old(self).dt(x) == DType::F32,
            r matches Ok(id) ==> final(self).valid(id) && final(self).sh(id) == old(self).sh(x)
                && final(self).dt(id) == DType::F32,
    {
        let xs = self.shape(x);
        let r = xs.len();
        let s = xs[r - 2];
        let d = xs[r - 1];
        let half = d / 2;
        let ghost sx = xs@;
        let (cos_full, sin_full) = self.rope_tables(s, d);
        let x1 = ok_id(self.slice_last(x, 0, half));
        let x2 = ok_id(self.slice_last(x, half, d));
        let nx2 = self.neg(x2);
        let rot = self.concat_last(nx2, x1, half);
        proof {
            let w1 = with_last(sx, (d - half + half) as usize);
            let w2 = with_last(sx, (half + half) as usize);
            if d % 2 != 0 {
                assert(w1[r - 1] != w2[r - 1]);
            } else {
                assert(w1 =~= w2);
            }
        }
        let rot = rot?;
        assert(self.sh(rot) =~= sx);
        proof {
            crate::graph::ops::nn::norm::lemma_numel2(s, (half + half) as usize);
            assert(s * (half + half) <= s * d) by (nonlinear_arith) requires half + half <= d;
            let from = ones((r - 2) as nat).push(s).push((half + half) as usize);
            assert forall|i: int| 0 <= i < from.len() implies #[trigger] from[i] == sx[i] || from[i] == 1 by {
                if i == r - 2 { assert(from[i] == s); } else if i == r - 1 { assert(from[i] == d); } else { assert(from[i] == 1); }
            }
        }
        let cos_b = ok_id(self.broadcast_2d_to(cos_full, &xs));
        let sin_b = ok_id(self.broadcast_2d_to(sin_full, &xs));
        let a = self.mul(x, cos_b)?;
        let b = ok_id(self.mul(rot, sin_b));
        self.add(a, b)
    }
    /// The additive causal mask broadcast to `out` (trailing `[S, S]`): 0 where key `j <= i`,
    /// `-inf` above the diagonal, one host constant reshaped to `[1, .., 1, S, S]`.
    fn causal_bias(&mut self, s: usize, out: &Vec<usize>) -> (r: Result<NodeId, Error>)
        requires old(self).wf(), old(self).room(3), s * s * 4 <= usize::MAX, s <= i64::MAX,
        ensures
            final(self).wf(), final(self).grew(*old(self), 3),
            r is Ok <==> out@.len() >= 2 && expand_ok(ones((out@.len() - 2) as nat).push(s).push(s), out@),
            r matches Ok(id) ==> final(self).valid(id) && final(self).dt(id) == DType::F32
                && final(self).sh(id) == out@,
            r matches Ok(id) ==> is_causal_bias(*final(self), id, s) && final(self).opn(id) is Expand,
    {
        let rank = out.len();
        if rank < 2 {
            return Err(Error::new("sdpa", ErrorKind::Invalid));
        }
        let data = grid_storage(Grid::NegInfAbove, s, s);
        let sq: Vec<usize> = vec![s, s];
        assert(sq@ =~= seq![s, s]);
        let bias = self.const_storage(data, sq);
        let ghost g1 = *self;
        let mut full = ones_vec(rank - 2);
        full.push(s);
        full.push(s);
        proof {
            lemma_numel_ones2((rank - 2) as nat, s, s);
            crate::graph::ops::nn::norm::lemma_numel2(s, s);
            assert(self.sh(bias) =~= seq![s, s]);
            assert(s * s <= s * s * 4) by (nonlinear_arith);
        }
        let biased = ok_id(self.reshape(bias, full));
        let ghost g2 = *self;
        let r = self.expand(biased, crate::graph::op::copy_vec(out));
        proof {
            if r is Ok {
                g1.lemma_node_kept(*self, bias);
                g2.lemma_node_kept(*self, biased);
            }
        }
        r
    }

    /// Scaled dot-product attention by its decomposition over the trailing `[S, D]`:
    /// `softmax(q k^T / sqrt(D) + mask) v`, the mask `-inf` on future keys when `causal`.
    /// Queries and keys may differ in count.
    #[verifier::spinoff_prover]
    #[verifier::rlimit(80)]
    pub fn sdpa_decomposed(&mut self, q: NodeId, k: NodeId, v: NodeId, causal: bool) -> (r: Result<NodeId, Error>)
        requires
            old(self).wf(), old(self).room(16), old(self).valid(q), old(self).valid(k), old(self).valid(v),
            old(self).sh(q).len() >= 2,
            causal ==> old(self).sh(q)[old(self).sh(q).len() - 2] * old(self).sh(q)[old(self).sh(q).len() - 2] * 4 <= usize::MAX,
        ensures
            final(self).wf(), final(self).grew(*old(self), 16),
            r matches Ok(id) ==> final(self).valid(id) && final(self).dt(id) == old(self).dt(q),
            old(self).sh(k).len() == old(self).sh(q).len() && old(self).sh(v).len() == old(self).sh(q).len() ==> {
                let qs = old(self).sh(q);
                let rr = qs.len();
                &&& r is Ok <==> sdpa_inputs_ok(qs, old(self).sh(k), old(self).sh(v), old(self).dt(q),
                    old(self).dt(k), old(self).dt(v), causal)
                &&& r matches Ok(id) ==> final(self).sh(id) == qs.take(rr - 2).push(qs[rr - 2]).push(old(self).sh(v)[rr - 1])
            },
            r matches Ok(id) ==> ({
                let g = *final(self);
                let attn = g.arg(id, 0);
                let sin = g.arg(attn, 0);
                let dh = old(self).sh(q)[old(self).sh(q).len() - 1];
                &&& g.opn(id) is DotGeneral && g.srcs(id) == seq![attn, v]
                &&& g.node_is(attn, Op::Softmax { axis: (old(self).sh(q).len() - 1) as usize }, seq![sin])
                &&& !causal ==> is_scaled_scores(g, sin, q, k, dh)
                &&& causal ==> g.node_is(sin, Op::Add, seq![g.arg(sin, 0), g.arg(sin, 1)])
                    && is_scaled_scores(g, g.arg(sin, 0), q, k, dh)
                    && is_causal_bias(g, g.arg(sin, 1), old(self).sh(q)[old(self).sh(q).len() - 2])
            }),
            r matches Ok(id) ==> ({
                let g = *final(self);
                let rk = old(self).sh(q).len();
                let sin = g.arg(g.arg(id, 0), 0);
                let sc = if causal { g.arg(sin, 0) } else { sin };
                &&& contracts_last2(g, g.arg(sc, 0), rk, true, true)
                &&& contracts_last2(g, id, rk, true, false)
            }),
    {
        let qs = self.shape(q);
        let r = qs.len();
        let s = qs[r - 2];
        let dh = qs[r - 1];
        let ghost sq = qs@;
        let ghost sk = self.sh(k);
        let ghost sv = self.sh(v);
        let ghost eq_rank = sk.len() == r && sv.len() == r;
        let raw = self.dot_last2(q, k, r, true, true)?;
        let ghost g1 = *self;
        // 1 / sqrt(D), rounded in f32
        let db = int_f32_bits(dh as u64);
        let d_u = self.f32_unit(raw, db);
        let ghost g2 = *self;
        let sd_u = self.sqrt(d_u);
        let ghost g3 = *self;
        let inv_u = self.recip(sd_u);
        let ghost g4 = *self;
        proof { assert(self.sh(inv_u) == ones(self.sh(raw).len())); }
        let inv = self.spread_like(inv_u, raw);
        let ghost g5 = *self;
        let mut scores = ok_id(self.mul(raw, inv));
        proof {
            reveal(is_f32_unit);
            g1.lemma_node_kept(*self, raw);
            g2.lemma_node_kept(*self, d_u);
            g3.lemma_node_kept(*self, sd_u);
            g4.lemma_node_kept(*self, inv_u);
            g5.lemma_node_kept(*self, inv);
            g5.lemma_arg_kept(*self, inv, 0);
            assert(spread_source(*self, inv) == inv_u);
            assert(is_f32_unit(*self, d_u, db));
            assert(is_scaled_scores(*self, scores, q, k, dh));
        }
        let ghost sc0 = scores;
        let ghost gs = *self;
        let ghost ss = self.sh(scores);
        proof {
            if eq_rank {
                assert(ss =~= sq.take(r - 2).push(s).push(sk[r - 2]));
                assert(ss.take(r - 2) =~= sq.take(r - 2));
            }
        }
        if causal {
            let dt = self.dtype(scores);
            let out = self.shape(scores);
            proof {
                if eq_rank {
                    let from = ones((r - 2) as nat).push(s).push(s);
                    if sk[r - 2] == s || s == 1 {
                        assert forall|i: int| 0 <= i < from.len() implies #[trigger] from[i] == ss[i] || from[i] == 1 by {
                            if i == r - 2 { assert(from[i] == s && ss[i] == s); }
                            else if i == r - 1 { assert(from[i] == s); }
                            else { assert(from[i] == 1); }
                        }
                    } else {
                        assert(!(from[r - 1] == ss[r - 1] || from[r - 1] == 1));
                    }
                }
            }
            proof {
                if s > 0x1_0000_0000 {
                    assert(s * s > 0x1_0000_0000 * 0x1_0000_0000) by (nonlinear_arith) requires s > 0x1_0000_0000;
                }
                assert(s <= i64::MAX);
            }
            let bias0 = self.causal_bias(s, &out)?;
            let ghost gcb = *self;
            let bias = if dt == DType::F32 { bias0 } else { self.cast(bias0, dt) };
            proof {
                lemma_causal_bias_kept(gcb, *self, bias0, s);
                if dt != DType::F32 {
                    gcb.lemma_node_kept(*self, bias0);
                }
                assert(is_causal_bias(*self, bias, s));
            }
            let ghost gbb = *self;
            scores = ok_id(self.add(scores, bias));
            proof { lemma_causal_bias_kept(gbb, *self, bias, s); }
        }
        proof {
            lemma_scaled_scores_kept(gs, *self, sc0, q, k, dh);
        }
        let ghost gb = *self;
        let attn = self.softmax(scores, r - 1)?;
        let ghost ga = *self;
        proof {
            if eq_rank {
                assert(self.sh(attn) == ss);
                assert(ss.take(r - 2) =~= sq.take(r - 2));
                assert(ss.take(r - 2).push(ss[r - 2]).push(sv[r - 1]) =~= sq.take(r - 2).push(sq[r - 2]).push(sv[r - 1]));
            }
        }
        let res = self.dot_last2(attn, v, r, true, false);
        proof {
            if res is Ok {
                lemma_scaled_scores_kept(gb, *self, sc0, q, k, dh);
                ga.lemma_node_kept(*self, attn);
                if causal {
                    gb.lemma_node_kept(*self, scores);
                    gb.lemma_arg_kept(*self, scores, 1);
                    lemma_causal_bias_kept(gb, *self, gb.arg(scores, 1), s);
                }
            }
        }
        res
    }

    /// The fused scaled dot-product attention `Op::Sdpa`: `q`, `k`, `v` share one shape
    /// `[.., S, dh]` (`dh > 0`) and dtype; the output has `q`'s shape.
    pub fn sdpa_fused(&mut self, q: NodeId, k: NodeId, v: NodeId, causal: bool) -> (r: Result<NodeId, Error>)
        requires old(self).wf(), old(self).room(1), old(self).valid(q), old(self).valid(k), old(self).valid(v),
        ensures
            final(self).wf(),
            r is Ok <==> sdpa_fused_ok(old(self).sh(q), old(self).sh(k), old(self).sh(v), old(self).dt(q),
                old(self).dt(k), old(self).dt(v)),
            r matches Ok(id) ==> final(self).pushed(*old(self), id, Op::Sdpa { causal }, seq![q, k, v])
                && final(self).sh(id) == old(self).sh(q) && final(self).dt(id) == old(self).dt(q),
            r is Err ==> *final(self) == *old(self),
    {
        let qs = self.shape(q);
        let ks = self.shape(k);
        let vs = self.shape(v);
        if !shapes_equal(&qs, &ks) || !shapes_equal(&qs, &vs) {
            return Err(Error::new("sdpa_fused", ErrorKind::ShapeMismatch));
        }
        let r = qs.len();
        if r < 2 || qs[r - 1] == 0 {
            return Err(Error::new("sdpa_fused", ErrorKind::Invalid));
        }
        self.same_dtype("sdpa_fused", q, k)?;
        self.same_dtype("sdpa_fused", q, v)?;
        let srcs = vec![q, k, v];
        assert(srcs@ =~= seq![q, k, v]);
        assert(ins_of(self.nodes@, srcs@)[0] == (self.sh(q), self.dt(q)));
        Ok(self.push(Op::Sdpa { causal }, srcs))
    }

    /// Scaled dot-product attention over the trailing `[S, D]` (float): the decomposition,
    /// unless `q`, `k`, `v` share one shape and the `[.., S, S]` f32 score buffer would
    /// exceed 1 GiB, in which case the fused primitive.
    #[verifier::spinoff_prover]
    #[verifier::rlimit(40)]
    pub fn sdpa(&mut self, q: NodeId, k: NodeId, v: NodeId, causal: bool) -> (r: Result<NodeId, Error>)
        requires
            old(self).wf(), old(self).room(16), old(self).valid(q), old(self).valid(k), old(self).valid(v),
            old(self).sh(q).len() >= 2,
            numel(old(self).sh(q).take(old(self).sh(q).len() - 2)) * old(self).sh(q)[old(self).sh(q).len() - 2]
                * old(self).sh(q)[old(self).sh(q).len() - 2] * 4 <= usize::MAX,
            causal ==> old(self).sh(q)[old(self).sh(q).len() - 2] * old(self).sh(q)[old(self).sh(q).len() - 2] * 4 <= usize::MAX,
        ensures
            final(self).wf(), final(self).grew(*old(self), 16),
            !old(self).dt(q).spec_is_float() ==> r is Err,
            r matches Ok(id) ==> final(self).valid(id) && final(self).dt(id) == old(self).dt(q),
            old(self).dt(q).spec_is_float() && old(self).sh(q) == old(self).sh(k) && old(self).sh(q) == old(self).sh(v)
                && scores_big(old(self).sh(q))
                ==> (r is Ok <==> sdpa_fused_ok(old(self).sh(q), old(self).sh(k), old(self).sh(v),
                    old(self).dt(q), old(self).dt(k), old(self).dt(v)))
                    && (r matches Ok(id) ==> final(self).sh(id) == old(self).sh(q)),
            old(self).dt(q).spec_is_float() && old(self).sh(k).len() == old(self).sh(q).len()
                && old(self).sh(v).len() == old(self).sh(q).len()
                && !(old(self).sh(q) == old(self).sh(k) && old(self).sh(q) == old(self).sh(v) && scores_big(old(self).sh(q)))
                ==> {
                    let qs = old(self).sh(q);
                    let rr = qs.len();
                    &&& r is Ok <==> sdpa_inputs_ok(qs, old(self).sh(k), old(self).sh(v), old(self).dt(q),
                        old(self).dt(k), old(self).dt(v), causal)
                    &&& r matches Ok(id) ==> final(self).sh(id) == qs.take(rr - 2).push(qs[rr - 2]).push(old(self).sh(v)[rr - 1])
                },
            r matches Ok(id) ==> ({
                let g = *final(self);
                let attn = g.arg(id, 0);
                let sin = g.arg(attn, 0);
                let dh = old(self).sh(q)[old(self).sh(q).len() - 1];
                ||| g.node_is(id, Op::Sdpa { causal }, seq![q, k, v])
                ||| g.opn(id) is DotGeneral && g.srcs(id) == seq![attn, v]
                    && g.node_is(attn, Op::Softmax { axis: (old(self).sh(q).len() - 1) as usize }, seq![sin])
                    && (!causal ==> is_scaled_scores(g, sin, q, k, dh))
                    && (causal ==> is_scaled_scores(g, g.arg(sin, 0), q, k, dh)
                        && is_causal_bias(g, g.arg(sin, 1), old(self).sh(q)[old(self).sh(q).len() - 2]))
            }),
    {
        self.require("sdpa", q, self.dtype(q).is_float())?;
        let qs = self.shape(q);
        let ks = self.shape(k);
        let vs = self.shape(v);
        let r = qs.len();
        let s = qs[r - 2];
        let mut lead = crate::graph::op::copy_vec(&qs);
        lead.truncate(r - 2);
        assert(lead@ =~= qs@.take(r - 2));
        let ghost n = numel(qs@.take(r - 2));
        proof {
            crate::graph::shape::lemma_numel_nonneg(qs@.take(r - 2));
            if s >= 1 {
                assert(n * s * s * 4 >= n * s * s && n * s * s >= n * s && n * s >= n) by (nonlinear_arith)
                    requires n >= 0, s >= 1;
            } else {
                assert(n * s * s * 4 == 0 && n * s * s == 0 && n * s == 0) by (nonlinear_arith) requires s == 0;
            }
        }
        let b = match numel_checked(&lead) { Some(b) => b, None => 0 };
        let big = b * s * s * 4 > SDPA_FUSED_BYTES;
        if shapes_equal(&qs, &ks) && shapes_equal(&qs, &vs) && big {
            return self.sdpa_fused(q, k, v, causal);
        }
        self.sdpa_decomposed(q, k, v, causal)
    }
}

} // verus!
