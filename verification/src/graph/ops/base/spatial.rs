//! Spatial rearrangement and resampling: nearest upsampling, pixel shuffle and its inverse,
//! and the graph side of separable resizing (the index and weight taps of an axis are
//! computed from the coordinate transform on the host and handed in).

use vstd::prelude::*;
use crate::dtype::DType;
use crate::error::{Error, ErrorKind};
use crate::graph::{Graph, NodeId, Op};
use crate::graph::ops::base::indexing::gathered;
use crate::graph::shape::{numel, is_perm, ones, ones_vec, expand_ok, left_pad_ones, lemma_numel_scale};
use crate::graph::ops::base::scalar::ok_id;
use crate::text::str_eq;

verus! {

/// `numel` of a four-axis shape.
pub proof fn lemma_numel4(a: usize, b: usize, c: usize, d: usize)
    ensures numel(seq![a, b, c, d]) == a * b * c * d,
{
    assert(seq![a, b, c, d].drop_last() =~= seq![a, b, c]);
    crate::graph::ops::nn::norm::lemma_numel3(a, b, c);
    assert(numel(seq![a, b, c, d]) == numel(seq![a, b, c]) * d);
}

/// `numel` of a six-axis shape.
pub proof fn lemma_numel6(a: usize, b: usize, c: usize, d: usize, e: usize, f: usize)
    ensures numel(seq![a, b, c, d, e, f]) == a * b * c * d * e * f,
{
    assert(seq![a, b, c, d, e, f].drop_last() =~= seq![a, b, c, d, e]);
    assert(seq![a, b, c, d, e].drop_last() =~= seq![a, b, c, d]);
    lemma_numel4(a, b, c, d);
    assert(numel(seq![a, b, c, d, e]) == numel(seq![a, b, c, d]) * e);
    assert(numel(seq![a, b, c, d, e, f]) == numel(seq![a, b, c, d, e]) * f);
}

/// The shape pixel shuffle gives `[N, C r^2, H, W]`: `[N, C, H r, W r]`.
pub open spec fn d2s_shape(s: Seq<usize>, r: usize) -> Seq<usize> {
    seq![s[0], (s[1] / (r * r) as usize) as usize, (s[2] * r) as usize, (s[3] * r) as usize]
}

/// The shape the inverse pixel shuffle gives `[N, C, H r, W r]`: `[N, C r^2, H, W]`.
pub open spec fn s2d_shape(s: Seq<usize>, r: usize) -> Seq<usize> {
    seq![s[0], (s[1] * r * r) as usize, (s[2] / r) as usize, (s[3] / r) as usize]
}

/// Pixel shuffle and its inverse undo each other on shapes: `space_to_depth` accepts what
/// `depth_to_space` gives and restores the input shape, and the other way round.
pub proof fn lemma_pixel_shuffle_inverse(s: Seq<usize>, r: usize)
    requires s.len() == 4, r > 0, r * r <= usize::MAX,
        s[1] * r * r <= usize::MAX, s[2] * r <= usize::MAX, s[3] * r <= usize::MAX,
    ensures
        s[1] % (r * r) as usize == 0 ==> ({
            let d = d2s_shape(s, r);
            &&& d[2] % r == 0 && d[3] % r == 0
            &&& s2d_shape(d, r) == s
        }),
        s[2] % r == 0 && s[3] % r == 0 ==> ({
            let u = s2d_shape(s, r);
            &&& u[1] % (r * r) as usize == 0
            &&& d2s_shape(u, r) == s
        }),
{
    let rr = (r * r) as usize;
    assert(rr > 0) by (nonlinear_arith) requires r > 0, rr == r * r;
    if s[1] % rr == 0 {
        let d = d2s_shape(s, r);
        let c = s[1] / rr;
        vstd::arithmetic::div_mod::lemma_fundamental_div_mod(s[1] as int, rr as int);
        assert(s[1] == rr * c);
        assert(c <= s[1]) by (nonlinear_arith) requires s[1] == rr * c, rr >= 1, c >= 0;
        assert(c * r * r == s[1]) by (nonlinear_arith) requires s[1] == rr * c, rr == r * r;
        vstd::arithmetic::div_mod::lemma_mod_multiples_basic(s[2] as int, r as int);
        vstd::arithmetic::div_mod::lemma_mod_multiples_basic(s[3] as int, r as int);
        vstd::arithmetic::div_mod::lemma_div_multiples_vanish(s[2] as int, r as int);
        vstd::arithmetic::div_mod::lemma_div_multiples_vanish(s[3] as int, r as int);
        assert(s[2] * r == r * s[2] && s[3] * r == r * s[3]) by (nonlinear_arith);
        assert(s2d_shape(d, r) =~= s);
    }
    if s[2] % r == 0 && s[3] % r == 0 {
        let u = s2d_shape(s, r);
        vstd::arithmetic::div_mod::lemma_fundamental_div_mod(s[2] as int, r as int);
        vstd::arithmetic::div_mod::lemma_fundamental_div_mod(s[3] as int, r as int);
        assert(s[1] * r * r == rr * s[1]) by (nonlinear_arith) requires rr == r * r;
        vstd::arithmetic::div_mod::lemma_mod_multiples_basic(s[1] as int, rr as int);
        vstd::arithmetic::div_mod::lemma_div_multiples_vanish(s[1] as int, rr as int);
        assert(u[2] * r == s[2] && u[3] * r == s[3]) by (nonlinear_arith)
            requires s[2] == r * (s[2] / r), s[3] == r * (s[3] / r), u[2] == s[2] / r, u[3] == s[3] / r;
        assert(d2s_shape(u, r) =~= s);
    }
}

/// The interpolation of a resize.
#[derive(Clone, Copy, PartialEq, Eq, Structural, Debug)]
pub enum Interp {
    Nearest,
    Linear,
    Cubic,
}

/// The coordinate transform of a resize (output index to source coordinate).
#[derive(Clone, Copy, PartialEq, Eq, Structural, Debug)]
pub enum Coord {
    HalfPixel,
    AlignCorners,
    Asymmetric,
    PytorchHalfPixel,
}

/// The interpolation named `s`.
pub open spec fn interp_named(s: Seq<char>) -> Option<Interp> {
    if s == "nearest"@ { Some(Interp::Nearest) }
    else if s == "linear"@ { Some(Interp::Linear) }
    else if s == "cubic"@ { Some(Interp::Cubic) }
    else { None }
}

/// The coordinate transform named `s`.
pub open spec fn coord_named(s: Seq<char>) -> Option<Coord> {
    if s == "half_pixel"@ { Some(Coord::HalfPixel) }
    else if s == "align_corners"@ { Some(Coord::AlignCorners) }
    else if s == "asymmetric"@ { Some(Coord::Asymmetric) }
    else if s == "pytorch_half_pixel"@ { Some(Coord::PytorchHalfPixel) }
    else { None }
}

/// The interpolation named `s`, if any.
pub fn interp_mode(s: &str) -> (m: Option<Interp>)
    ensures m == interp_named(s@),
{
    if str_eq(s, "nearest") { Some(Interp::Nearest) }
    else if str_eq(s, "linear") { Some(Interp::Linear) }
    else if str_eq(s, "cubic") { Some(Interp::Cubic) }
    else { None }
}

/// The coordinate transform named `s`, if any.
pub fn coord_mode(s: &str) -> (m: Option<Coord>)
    ensures m == coord_named(s@),
{
    if str_eq(s, "half_pixel") { Some(Coord::HalfPixel) }
    else if str_eq(s, "align_corners") { Some(Coord::AlignCorners) }
    else if str_eq(s, "asymmetric") { Some(Coord::Asymmetric) }
    else if str_eq(s, "pytorch_half_pixel") { Some(Coord::PytorchHalfPixel) }
    else { None }
}

/// Each tap of a resize has `out` indices and, for a weighted tap, `out` weights.
pub open spec fn taps_ok(taps: Seq<(Vec<i64>, Vec<u32>)>, out: usize) -> bool {
    forall|t: int| 0 <= t < taps.len() ==> (#[trigger] taps[t]).0@.len() == out && taps[t].1@.len() == out
}

/// `n` as an I64 storage.
fn i64_vec_storage(v: &Vec<i64>) -> (s: crate::storage::Storage)
    requires v@.len() * 8 <= usize::MAX,
    ensures s.spec_dtype() == DType::I64, s.wf(), s.spec_bytes().len() == 8 * v@.len(),
{
    let mut b: Vec<u8> = Vec::new();
    let mut k: usize = 0;
    while k < v.len()
        invariant k <= v@.len(), v@.len() * 8 <= usize::MAX, b@.len() == 8 * k,
        decreases v@.len() - k,
    {
        crate::bytes::push_u64(&mut b, v[k] as u64);
        k = k + 1;
    }
    assert(b@.len() % 8 == 0) by { vstd::arithmetic::div_mod::lemma_mod_multiples_basic(v@.len() as int, 8); }
    crate::storage::Storage::new(DType::I64, b)
}

/// `w` as an F32 storage (bit patterns).
fn f32_vec_storage(w: &Vec<u32>) -> (s: crate::storage::Storage)
    requires w@.len() * 4 <= usize::MAX,
    ensures s.spec_dtype() == DType::F32, s.wf(), s.spec_bytes().len() == 4 * w@.len(),
{
    let mut b: Vec<u8> = Vec::new();
    let mut k: usize = 0;
    while k < w.len()
        invariant k <= w@.len(), w@.len() * 4 <= usize::MAX, b@.len() == 4 * k,
        decreases w@.len() - k,
    {
        crate::bytes::push_u32(&mut b, w[k]);
        k = k + 1;
    }
    assert(b@.len() % 4 == 0) by { vstd::arithmetic::div_mod::lemma_mod_multiples_basic(w@.len() as int, 4); }
    crate::storage::Storage::new(DType::F32, b)
}

/// Node `id` of `g` regroups `x` through a six-axis view: `x` reshaped to `v6`, its axes
/// permuted by `perm`, and the result reshaped to `out`.
pub open spec fn is_regroup_of(g: Graph, id: NodeId, x: NodeId, v6: Seq<usize>, perm: Seq<usize>, out: Seq<usize>) -> bool {
    let b = g.arg(id, 0);
    let a = g.arg(b, 0);
    &&& g.srcs(id) == seq![b] && (g.opn(id) matches Op::Reshape { shape } && shape@ == out)
    &&& g.srcs(b) == seq![a] && (g.opn(b) matches Op::Permute { perm: p } && p@ == perm)
    &&& g.srcs(a) == seq![x] && (g.opn(a) matches Op::Reshape { shape } && shape@ == v6)
}

impl Graph {
    /// Nearest-neighbour upsampling of `[N, C, H, W]` by `factor`: each pixel repeated along
    /// `H`, then along `W`.
    pub fn upsample_nearest2d(&mut self, x: NodeId, factor: usize) -> (r: Result<NodeId, Error>)
        requires
            old(self).wf(), old(self).room(6), old(self).valid(x), old(self).sh(x).len() >= 4,
            numel(old(self).sh(x)) <= usize::MAX, numel(old(self).sh(x)) * factor * factor <= usize::MAX,
            old(self).sh(x)[2] * factor <= usize::MAX, old(self).sh(x)[3] * factor <= usize::MAX,
        ensures
            final(self).wf(), final(self).grew(*old(self), 6),
            r is Ok,
            r matches Ok(id) ==> final(self).valid(id) && final(self).dt(id) == old(self).dt(x)
                && final(self).sh(id) == old(self).sh(x).update(2, (old(self).sh(x)[2] * factor) as usize)
                    .update(3, (old(self).sh(x)[3] * factor) as usize),
    {
        let ghost s = self.sh(x);
        proof {
            crate::graph::shape::lemma_numel_nonneg(s);
            assert(numel(s) <= numel(s) * factor * factor || factor == 0) by (nonlinear_arith)
                requires numel(s) >= 0;
            if factor == 0 {
                assert(numel(s) * factor == 0);
            } else {
                assert(numel(s) * factor <= numel(s) * factor * factor) by (nonlinear_arith)
                    requires numel(s) >= 0, factor >= 1;
                assert(numel(s) <= numel(s) * factor) by (nonlinear_arith) requires numel(s) >= 0, factor >= 1;
            }
        }
        let a = self.repeat_interleave(x, 2, factor)?;
        proof { lemma_numel_scale(s, 2, factor); }
        self.repeat_interleave(a, 3, factor)
    }

    /// Pixel shuffle `[N, C r^2, H, W] -> [N, C, H r, W r]` through a reshape and a permute.
    #[verifier::spinoff_prover]
    #[verifier::rlimit(60)]
    pub fn depth_to_space(&mut self, x: NodeId, r: usize) -> (res: Result<NodeId, Error>)
        requires
            old(self).wf(), old(self).room(3), old(self).valid(x),
            numel(old(self).sh(x)) <= usize::MAX, r * r <= usize::MAX,
            old(self).sh(x).len() == 4 ==> ({
                let s = old(self).sh(x);
                &&& r == 0 ==> s[1] != 0
                &&& s[2] * r <= usize::MAX && s[3] * r <= usize::MAX
            }),
        ensures
            final(self).wf(), final(self).grew(*old(self), 3),
            res is Ok <==> old(self).sh(x).len() == 4 && r > 0 && old(self).sh(x)[1] % (r * r) as usize == 0,
            res matches Ok(id) ==> final(self).valid(id) && final(self).dt(id) == old(self).dt(x)
                && final(self).sh(id) == d2s_shape(old(self).sh(x), r),
            res matches Ok(id) ==> ({
                let s = old(self).sh(x);
                let c = (s[1] as int / (r * r)) as usize;
                is_regroup_of(*final(self), id, x, seq![s[0], c, r, r, s[2], s[3]], seq![0usize, 1, 4, 2, 5, 3],
                    d2s_shape(s, r))
            }),
    {
        let sh = self.shape(x);
        proof {
            if r > 0 {
                assert(r * r >= 1) by (nonlinear_arith) requires r >= 1;
            }
        }
        if sh.len() != 4 || r == 0 || sh[1] % (r * r) != 0 {
            return Err(Error::new("depth_to_space", ErrorKind::ShapeMismatch));
        }
        let n = sh[0];
        let h = sh[2];
        let w = sh[3];
        let rr = r * r;
        let c = sh[1] / rr;
        let s6: Vec<usize> = vec![n, c, r, r, h, w];
        proof {
            assert(sh@ =~= seq![n, sh@[1], h, w]);
            lemma_numel4(n, sh@[1], h, w);
            lemma_numel6(n, c, r, r, h, w);
            vstd::arithmetic::div_mod::lemma_fundamental_div_mod(sh@[1] as int, rr as int);
            assert(sh@[1] == rr * c);
            assert(n * c * r * r * h * w == n * (rr * c) * h * w) by (nonlinear_arith) requires rr == r * r;
            assert(s6@ =~= seq![n, c, r, r, h, w]);
        }
        let ghost v6 = s6@;
        let a = ok_id(self.reshape(x, s6));
        let perm: Vec<usize> = vec![0, 1, 4, 2, 5, 3];
        proof {
            let p = perm@;
            assert(p =~= seq![0usize, 1, 4, 2, 5, 3]);
            assert(is_perm(p, 6)) by {
                assert forall|i: int, j: int| 0 <= i < p.len() && 0 <= j < p.len() && i != j implies p[i] != p[j] by {
                    assert(p[0] == 0 && p[1] == 1 && p[2] == 4 && p[3] == 2 && p[4] == 5 && p[5] == 3);
                }
            }
        }
        let ghost g1 = *self;
        let ghost pv = perm@;
        let b = ok_id(self.permute(a, perm));
        let ghost g2 = *self;
        let ghost sb = self.sh(b);
        let hr = h * r;
        let wr = w * r;
        let s4: Vec<usize> = vec![n, c, hr, wr];
        proof {
            assert(sb =~= seq![n, c, h, r, w, r]);
            lemma_numel6(n, c, h, r, w, r);
            lemma_numel4(n, c, hr, wr);
            assert(n * c * h * r * w * r == n * c * (h * r) * (w * r)) by (nonlinear_arith);
            assert(n * c * r * r * h * w == n * c * h * r * w * r) by (nonlinear_arith);
            assert(s4@ =~= seq![n, c, hr, wr]);
        }
        let res = self.reshape(b, s4);
        proof {
            if res is Ok {
                g1.lemma_node_kept(*self, a);
                g2.lemma_node_kept(*self, b);
            }
        }
        res
    }

    /// Inverse pixel shuffle `[N, C, H r, W r] -> [N, C r^2, H, W]`.
    #[verifier::spinoff_prover]
    #[verifier::rlimit(60)]
    pub fn space_to_depth(&mut self, x: NodeId, r: usize) -> (res: Result<NodeId, Error>)
        requires
            old(self).wf(), old(self).room(3), old(self).valid(x),
            numel(old(self).sh(x)) <= usize::MAX,
            old(self).sh(x).len() == 4 ==> ({
                let s = old(self).sh(x);
                &&& r == 0 ==> s[2] != 0 || s[3] != 0
                &&& s[1] * r * r <= usize::MAX
            }),
        ensures
            final(self).wf(), final(self).grew(*old(self), 3),
            res is Ok <==> old(self).sh(x).len() == 4 && r > 0 && old(self).sh(x)[2] % r == 0
                && old(self).sh(x)[3] % r == 0,
            res matches Ok(id) ==> final(self).valid(id) && final(self).dt(id) == old(self).dt(x)
                && final(self).sh(id) == s2d_shape(old(self).sh(x), r),
            res matches Ok(id) ==> ({
                let s = old(self).sh(x);
                is_regroup_of(*final(self), id, x, seq![s[0], s[1], (s[2] / r) as usize, r, (s[3] / r) as usize, r],
                    seq![0usize, 1, 3, 5, 2, 4], s2d_shape(s, r))
            }),
    {
        let sh = self.shape(x);
        if sh.len() != 4 || r == 0 || sh[2] % r != 0 || sh[3] % r != 0 {
            return Err(Error::new("space_to_depth", ErrorKind::ShapeMismatch));
        }
        let n = sh[0];
        let c = sh[1];
        let h = sh[2] / r;
        let w = sh[3] / r;
        let s6: Vec<usize> = vec![n, c, h, r, w, r];
        proof {
            assert(sh@ =~= seq![n, c, sh@[2], sh@[3]]);
            lemma_numel4(n, c, sh@[2], sh@[3]);
            lemma_numel6(n, c, h, r, w, r);
            vstd::arithmetic::div_mod::lemma_fundamental_div_mod(sh@[2] as int, r as int);
            vstd::arithmetic::div_mod::lemma_fundamental_div_mod(sh@[3] as int, r as int);
            assert(sh@[2] == r * h && sh@[3] == r * w);
            assert(n * c * h * r * w * r == n * c * (r * h) * (r * w)) by (nonlinear_arith);
            assert(s6@ =~= seq![n, c, h, r, w, r]);
        }
        let ghost v6 = s6@;
        let a = ok_id(self.reshape(x, s6));
        let perm: Vec<usize> = vec![0, 1, 3, 5, 2, 4];
        proof {
            let p = perm@;
            assert(p =~= seq![0usize, 1, 3, 5, 2, 4]);
            assert(is_perm(p, 6)) by {
                assert forall|i: int, j: int| 0 <= i < p.len() && 0 <= j < p.len() && i != j implies p[i] != p[j] by {
                    assert(p[0] == 0 && p[1] == 1 && p[2] == 3 && p[3] == 5 && p[4] == 2 && p[5] == 4);
                }
            }
        }
        let ghost g1 = *self;
        let ghost pv = perm@;
        let b = ok_id(self.permute(a, perm));
        let ghost g2 = *self;
        let ghost sb = self.sh(b);
        proof {
            assert(c * r <= c * r * r) by (nonlinear_arith) requires r >= 1;
        }
        let crr = c * r * r;
        let s4: Vec<usize> = vec![n, crr, h, w];
        proof {
            assert(sb =~= seq![n, c, r, r, h, w]);
            lemma_numel6(n, c, r, r, h, w);
            lemma_numel4(n, crr, h, w);
            assert(n * c * r * r * h * w == n * (c * r * r) * h * w) by (nonlinear_arith);
            assert(n * c * h * r * w * r == n * c * r * r * h * w) by (nonlinear_arith);
            assert(s4@ =~= seq![n, crr, h, w]);
        }
        let res = self.reshape(b, s4);
        proof {
            if res is Ok {
                g1.lemma_node_kept(*self, a);
                g2.lemma_node_kept(*self, b);
            }
        }
        res
    }
    /// Resize along `axis` by nearest neighbour: gather `x` at the source indices `index`
    /// (one per output position, already clamped), any dtype.
    pub fn resize_gather(&mut self, x: NodeId, axis: usize, index: &Vec<i64>) -> (r: Result<NodeId, Error>)
        requires
            old(self).wf(), old(self).room(2), old(self).valid(x), index@.len() * 8 <= usize::MAX,
        ensures
            final(self).wf(), final(self).grew(*old(self), 2),
            r is Ok <==> axis < old(self).sh(x).len(),
            r matches Ok(id) ==> final(self).valid(id) && final(self).dt(id) == old(self).dt(x)
                && final(self).sh(id) == old(self).sh(x).update(axis as int, index@.len() as usize),
    {
        let out = index.len();
        let ov: Vec<usize> = vec![out];
        assert(ov@ =~= seq![out]);
        let idxn = self.const_storage(i64_vec_storage(index), ov);
        let res = self.gather(x, idxn, axis);
        proof {
            if res is Ok {
                let s = old(self).sh(x);
                assert(gathered(s, seq![out], axis) =~= s.update(axis as int, out));
            }
        }
        res
    }

    /// Resize along `axis` by a weighted sum of taps: for each `(index, weight)` tap, `x`
    /// gathered at `index` times the F32 `weight` (bit patterns) broadcast along `axis`; the
    /// taps added in order (F32 `x`, at least one tap).
    #[verifier::spinoff_prover]
    #[verifier::rlimit(60)]
    #[verifier::loop_isolation(false)]
    pub fn resize_mix(&mut self, x: NodeId, axis: usize, out: usize, taps: &Vec<(Vec<i64>, Vec<u32>)>) -> (r: Result<NodeId, Error>)
        requires
            old(self).wf(), old(self).room((7 * taps@.len()) as nat), old(self).valid(x),
            axis < old(self).sh(x).len(), out * 8 <= usize::MAX, taps_ok(taps@, out),
        ensures
            final(self).wf(), final(self).grew(*old(self), (7 * taps@.len()) as nat),
            r is Ok <==> taps@.len() > 0 && old(self).dt(x) == DType::F32,
            r matches Ok(id) ==> final(self).valid(id) && final(self).dt(id) == DType::F32
                && final(self).sh(id) == old(self).sh(x).update(axis as int, out),
    {
        let ghost g0 = *self;
        if taps.len() == 0 {
            return Err(Error::new("resize", ErrorKind::Invalid));
        }
        let sh = self.shape(x);
        let ghost s = sh@;
        let mut full = crate::graph::op::copy_vec(&sh);
        full.set(axis, out);
        let mut wsh = ones_vec(sh.len());
        wsh.set(axis, out);
        let ghost fs = full@;
        let ghost ws = wsh@;
        proof {
            assert(fs =~= s.update(axis as int, out));
            assert(ws =~= ones(s.len()).update(axis as int, out));
            assert(left_pad_ones(ws, fs.len()) =~= ws);
            assert(expand_ok(ws, fs));
            crate::graph::shape::lemma_numel_ones(s.len());
            assert(ones(s.len()) =~= Seq::new(s.len(), |i: int| 1usize));
            assert(ones(s.len())[axis as int] == 1);
            lemma_numel_scale(ones(s.len()), axis as int, out);
            assert(ones(s.len())[axis as int] * out == out);
            assert(ones(s.len()).update(axis as int, (ones(s.len())[axis as int] * out) as usize) =~= ws);
        }
        let mut acc = x;
        let mut t: usize = 0;
        while t < taps.len()
            invariant
                t <= taps@.len(), taps@.len() > 0, self.wf(),
                self.grew(g0, (7 * t) as nat),
                self.valid(x) && self.sh(x) == s && self.dt(x) == g0.dt(x),
                t > 0 ==> self.valid(acc) && self.sh(acc) == fs && self.dt(acc) == DType::F32,
                t > 0 ==> g0.dt(x) == DType::F32,
                full@ == fs, wsh@ == ws, numel(ws) == out,
            decreases taps@.len() - t,
        {
            let ix = &taps[t].0;
            let w = &taps[t].1;
            let ov: Vec<usize> = vec![out];
            assert(ov@ =~= seq![out]);
            let idxn = self.const_storage(i64_vec_storage(ix), ov);
            let g = ok_id(self.gather(x, idxn, axis));
            assert(gathered(s, seq![out], axis) =~= fs);
            let wn = self.const_storage(f32_vec_storage(w), crate::graph::op::copy_vec(&wsh));
            let wf = ok_id(self.broadcast_to(wn, crate::graph::op::copy_vec(&full)));
            let term = self.mul(g, wf)?;
            if t == 0 {
                acc = term;
            } else {
                acc = ok_id(self.add(acc, term));
            }
            t = t + 1;
        }
        Ok(acc)
    }
}

} // verus!
