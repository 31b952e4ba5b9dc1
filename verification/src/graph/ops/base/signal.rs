//! Signal processing over the DFT: N-D transforms, the real FFT and its inverse, FFT
//! convolution, the analytic signal, window functions and the short-time transform.

use vstd::prelude::*;
use crate::bytes::{le_u32, le_u64, push_u32, push_u64};
use crate::dtype::DType;
use crate::error::{Error, ErrorKind};
use crate::storage::Storage;
use crate::graph::{Graph, NodeId, Op};
use crate::graph::ops::base::join::{pads_along, is_piece, joins, lemma_joins_kept, stacks, lemma_stacks_kept};
use crate::graph::shape::{numel, ones, ones_vec, lemma_numel_update_le};
use crate::graph::ops::base::fft::{DFT_ROOM, dft_dtype, dft_fits, is_dft_of, lemma_dft_kept};
use crate::graph::ops::base::scalar::{ok_id, is_scalar_of, lemma_scalar_kept, F32_ONE, F32_TWO};

verus! {

/// Every axis in `axes` is below `rank`.
pub open spec fn axes_below(axes: Seq<usize>, rank: nat) -> bool {
    forall|i: int| 0 <= i < axes.len() ==> (#[trigger] axes[i]) < rank
}

/// Every in-range axis of `axes` has a DFT table that fits.
pub open spec fn dftn_fits(s: Seq<usize>, axes: Seq<usize>) -> bool {
    forall|i: int| 0 <= i < axes.len() && (#[trigger] axes[i]) < s.len() ==> dft_fits(s[axes[i] as int])
}

/// The dtype after transforming a `d` tensor along `k` axes.
pub open spec fn dftn_dtype(d: DType, k: nat) -> DType {
    if k == 0 { d } else { dft_dtype(d) }
}

/// `s` with axis `axis` set to `[lo, hi)` and every other axis whole.
pub open spec fn axis_window(s: Seq<usize>, axis: int, lo: usize, hi: usize) -> Seq<(usize, usize)> {
    s.map_values(|d: usize| (0usize, d)).update(axis, (lo, hi))
}

/// The Hilbert multiplier at frequency `k` of a length-`n` spectrum: 1 at DC (and at
/// Nyquist for even `n`), 2 on the positive frequencies, 0 on the negative ones.
pub open spec fn hilbert_gain(n: nat, k: int) -> u32 {
    if k == 0 {
        0x3f80_0000
    } else if n % 2 == 0 && k == n / 2 {
        0x3f80_0000
    } else if (n % 2 == 0 && k < n / 2) || (n % 2 == 1 && k < (n + 1) / 2) {
        0x4000_0000
    } else {
        0
    }
}

/// Frames of a length-`l` signal at hop `hop` with `n_fft` samples each.
pub open spec fn n_frames(l: int, n_fft: int, hop: int) -> int {
    (l - n_fft) / hop + 1
}

/// The analysis window (if any) fits frames of `n_fft` samples of dtype `d`: it holds
/// `n_fft` elements of dtype `d`, numeric.
pub open spec fn stft_window_ok(g: Graph, window: Option<NodeId>, n_fft: usize, d: DType) -> bool {
    match window {
        None => true,
        Some(w) => numel(g.sh(w)) == n_fft && g.dt(w) == d && d.spec_is_arith(),
    }
}

/// Length of the overlap-added signal of `nf` frames of `n_fft` samples at hop `hop`.
pub open spec fn istft_len(nf: int, hop: int, n_fft: int) -> int {
    (nf - 1) * hop + n_fft
}

/// The synthesis window (if any) fits: `n_fft` elements of rank one and of the real
/// dtype `d` of the frames; without one, the frames must be single precision (the implicit
/// window is an F32 constant).
pub open spec fn istft_window_ok(g: Graph, window: Option<NodeId>, n_fft: usize, d: DType) -> bool {
    match window {
        None => d == DType::F32,
        Some(w) => g.sh(w) == seq![n_fft] && g.dt(w) == d,
    }
}

/// The real dtype of the inverse transform of a `d` tensor.
fn istft_time_dtype(d: DType) -> (r: DType)
    ensures r == dft_dtype(d).spec_real_dtype(),
{
    if d == DType::C128 || d == DType::F64 { DType::F64 } else { DType::F32 }
}

/// Ranges covering `s` except `axis`, which covers `[lo, hi)`.
pub fn axis_ranges(s: &Vec<usize>, axis: usize, lo: usize, hi: usize) -> (r: Vec<(usize, usize)>)
    requires axis < s@.len(),
    ensures r@ == axis_window(s@, axis as int, lo, hi),
{
    let mut r: Vec<(usize, usize)> = Vec::new();
    let mut i: usize = 0;
    while i < s.len()
        invariant
            i <= s@.len(), axis < s@.len(),
            r@.len() == i,
            forall|j: int| 0 <= j < i ==> #[trigger] r@[j] == (if j == axis { (lo, hi) } else { (0usize, s@[j]) }),
        decreases s@.len() - i,
    {
        if i == axis {
            r.push((lo, hi));
        } else {
            r.push((0, s[i]));
        }
        i = i + 1;
    }
    assert(r@ =~= axis_window(s@, axis as int, lo, hi));
    r
}

/// 1e-8 as f32.
pub const F32_EPS_1E8: u32 = 0x322b_cc77;

/// The Hilbert multiplier for a length-`n` spectrum as an F32 storage.
fn hilbert_gains(n: usize) -> (s: Storage)
    requires n * 4 <= usize::MAX,
    ensures
        s.spec_dtype() == DType::F32, s.wf(), s.spec_bytes().len() == 4 * n,
        forall|k: int| 0 <= k < n ==> #[trigger] s.spec_bytes().subrange(4 * k, 4 * k + 4) == le_u32(hilbert_gain(n as nat, k)),
{
    let mut b: Vec<u8> = Vec::new();
    let mut k: usize = 0;
    while k < n
        invariant
            k <= n, n * 4 <= usize::MAX, b@.len() == 4 * k,
            forall|u: int| 0 <= u < k ==> #[trigger] b@.subrange(4 * u, 4 * u + 4) == le_u32(hilbert_gain(n as nat, u)),
        decreases n - k,
    {
        let g: u32 = if k == 0 {
            0x3f80_0000
        } else if n % 2 == 0 && k == n / 2 {
            0x3f80_0000
        } else if (n % 2 == 0 && k < n / 2) || (n % 2 == 1 && k < (n + 1) / 2) {
            0x4000_0000
        } else {
            0
        };
        let ghost old_b = b@;
        push_u32(&mut b, g);
        assert forall|u: int| 0 <= u < k + 1 implies #[trigger] b@.subrange(4 * u, 4 * u + 4) == le_u32(hilbert_gain(n as nat, u)) by {
            if u < k {
                assert(b@.subrange(4 * u, 4 * u + 4) =~= old_b.subrange(4 * u, 4 * u + 4));
            } else {
                assert(b@.subrange(4 * u, 4 * u + 4) =~= le_u32(g));
            }
        }
        k = k + 1;
    }
    assert(b@.len() % 4 == 0) by { vstd::arithmetic::div_mod::lemma_mod_multiples_basic(n as int, 4); }
    Storage::new(DType::F32, b)
}


/// A one-element I64 storage holding `v`.
fn storage_u64_i64(v: u64) -> (s: Storage)
    ensures s.spec_dtype() == DType::I64, s.wf(), s.spec_bytes() == le_u64(v),
{
    let mut b: Vec<u8> = Vec::new();
    push_u64(&mut b, v);
    assert(b@ =~= le_u64(v));
    assert(b@.len() == 8);
    Storage::new(DType::I64, b)
}

/// Node `id` of `g` is `y` subtracted from `x`: `x` plus the negation of `y`.
pub open spec fn is_diff_of(g: Graph, id: NodeId, x: NodeId, y: NodeId) -> bool {
    g.node_is(id, Op::Add, seq![x, g.arg(id, 1)]) && g.node_is(g.arg(id, 1), Op::Neg, seq![y])
}

/// Node `id` of `g` is `x` divided by `y`: `x` times the reciprocal of `y`.
pub open spec fn is_quot_of(g: Graph, id: NodeId, x: NodeId, y: NodeId) -> bool {
    g.node_is(id, Op::Mul, seq![x, g.arg(id, 1)]) && g.node_is(g.arg(id, 1), Op::Recip, seq![y])
}

/// Node `id` of `g` is the float `n - 1` over `[n]`: the one-element I64 constant `n - 1`,
/// cast to F32 and expanded.
pub open spec fn is_span_of(g: Graph, id: NodeId, n: usize) -> bool {
    let c = g.arg(id, 0);
    let k = g.arg(c, 0);
    &&& g.valid(id) && g.srcs(id).len() == 1
    &&& g.opn(id) matches Op::Expand { shape } && shape@ == seq![n]
    &&& g.opn(c) == (Op::Cast { to: DType::F32 }) && g.srcs(c).len() == 1
    &&& g.opn(k) matches Op::Const { data, shape } && shape@ == seq![1usize]
        && data.spec_dtype() == DType::I64 && data.spec_bytes() == le_u64((n - 1) as u64)
}

/// Node `id` of `g` is the Bartlett window of length `n`: ones for `n <= 1`, otherwise
/// `1 - |(k - h) / h|` with `k` counting along the window and `h` half of `n - 1`.
pub open spec fn is_bartlett_of(g: Graph, id: NodeId, n: usize) -> bool {
    if n <= 1 {
        g.opn(id) matches Op::Const { data, shape } && shape@ == seq![n]
            && data.spec_dtype() == DType::F32 && data.spec_bytes() == f32_fill_bytes(n as nat, F32_ONE)
    } else {
        let aq = g.arg(g.arg(id, 1), 0);
        let q = g.arg(aq, 0);
        let km = g.arg(q, 0);
        let half = g.arg(g.arg(q, 1), 0);
        let k = g.arg(km, 0);
        let d = g.arg(half, 0);
        &&& is_diff_of(g, id, g.arg(id, 0), aq) && is_scalar_of(g, g.arg(id, 0), F32_ONE)
        &&& g.node_is(aq, Op::Max, seq![q, g.arg(aq, 1)]) && g.node_is(g.arg(aq, 1), Op::Neg, seq![q])
        &&& is_quot_of(g, q, km, half)
        &&& is_diff_of(g, km, k, half)
        &&& is_quot_of(g, half, d, g.arg(g.arg(half, 1), 0)) && is_scalar_of(g, g.arg(g.arg(half, 1), 0), F32_TWO)
        &&& g.opn(k) matches Op::Iota { shape, axis, dtype } && shape@ == seq![n] && axis == 0 && dtype == DType::F32
        &&& is_span_of(g, d, n)
    }
}

/// `rank` zero pads, but `(before, after)` on `axis`.
pub fn axis_pads(rank: usize, axis: usize, before: usize, after: usize) -> (p: Vec<(usize, usize)>)
    ensures p@ == Seq::new(rank as nat, |d: int| if d == axis { (before, after) } else { (0usize, 0usize) }),
{
    let mut p: Vec<(usize, usize)> = Vec::new();
    let mut d: usize = 0;
    while d < rank
        invariant
            d <= rank,
            p@ == Seq::new(d as nat, |k: int| if k == axis { (before, after) } else { (0usize, 0usize) }),
        decreases rank - d,
    {
        p.push(if d == axis { (before, after) } else { (0, 0) });
        d = d + 1;
        assert(p@ =~= Seq::new(d as nat, |k: int| if k == axis { (before, after) } else { (0usize, 0usize) }));
    }
    p
}

/// `n` copies of the little-endian bytes of the f32 bit pattern `bits`.
pub open spec fn f32_fill_bytes(n: nat, bits: u32) -> Seq<u8> {
    Seq::new(4 * n, |i: int| le_u32(bits)[i % 4])
}

/// `n` F32 copies of the float with bit pattern `bits`.
pub fn f32_fill(n: usize, bits: u32) -> (s: Storage)
    requires n * 4 <= usize::MAX,
    ensures
        s.spec_dtype() == DType::F32, s.wf(), s.spec_bytes().len() == 4 * n,
        s.spec_bytes() == f32_fill_bytes(n as nat, bits),
{
    let mut b: Vec<u8> = Vec::new();
    let mut k: usize = 0;
    while k < n
        invariant k <= n, n * 4 <= usize::MAX, b@.len() == 4 * k, b@ == f32_fill_bytes(k as nat, bits),
        decreases n - k,
    {
        let ghost b0 = b@;
        push_u32(&mut b, bits);
        proof {
            assert forall|i: int| 0 <= i < 4 * (k + 1) implies #[trigger] b@[i] == le_u32(bits)[i % 4] by {
                if i >= 4 * k {
                    assert(i % 4 == i - 4 * k) by (nonlinear_arith) requires 4 * k <= i < 4 * k + 4;
                }
            }
            assert(b@ =~= f32_fill_bytes((k + 1) as nat, bits));
        }
        k = k + 1;
    }
    assert(b@.len() % 4 == 0) by { vstd::arithmetic::div_mod::lemma_mod_multiples_basic(n as int, 4); }
    Storage::new(DType::F32, b)
}

/// The last block of an overlap-add of `k` blocks.
pub open spec fn ola_last(g: Graph, id: NodeId, k: int) -> NodeId {
    if k <= 1 { id } else { g.arg(id, 1) }
}

/// Block `j` of an overlap-add: node `pd` zero-pads its one source `b` to `l` along `axis` at
/// offset `j * hop` (`b` being `n` long there). With `sliced`, `b` is frame `j` of `w` (shape
/// `wsh`): the slice `[j, j + 1)` of `axis` with that axis dropped; otherwise `b` is `w` itself.
pub open spec fn ola_block(g: Graph, pd: NodeId, w: NodeId, sliced: bool, wsh: Seq<usize>, axis: int,
    j: int, hop: int, n: int, l: int) -> bool
{
    let b = g.arg(pd, 0);
    let sl = g.arg(b, 0);
    &&& pads_along(g, pd, b, axis, j * hop, l - j * hop - n)
    &&& !sliced ==> b == w
    &&& sliced ==> g.opn(b) is Reshape && g.srcs(b) == seq![sl] && g.srcs(sl) == seq![w]
        && (g.opn(sl) matches Op::Slice { ranges }
            && ranges@ == axis_window(wsh, axis, j as usize, (j + 1) as usize).map_values(|q: (usize, usize)| (q.0, q.1, 1usize)))
}

/// Node `id` of `g` is the overlap-add of blocks `0..k` (see `ola_block`), summed in order.
pub open spec fn ola(g: Graph, id: NodeId, w: NodeId, sliced: bool, wsh: Seq<usize>, axis: int,
    hop: int, n: int, l: int, k: int) -> bool
    decreases k,
{
    if k <= 1 {
        k == 1 && ola_block(g, id, w, sliced, wsh, axis, 0, hop, n, l)
    } else {
        let prev = g.arg(id, 0);
        let pd = g.arg(id, 1);
        &&& g.valid(id) && g.srcs(id) == seq![prev, pd] && g.opn(id) == Op::Add
        &&& ola_block(g, pd, w, sliced, wsh, axis, k - 1, hop, n, l)
        &&& ola(g, prev, w, sliced, wsh, axis, hop, n, l, k - 1)
    }
}

/// A block stays one as the graph grows.
pub proof fn lemma_ola_block_kept(g0: Graph, g1: Graph, pd: NodeId, w: NodeId, sliced: bool, wsh: Seq<usize>, axis: int,
    j: int, hop: int, n: int, l: int)
    requires g0.wf(), ola_block(g0, pd, w, sliced, wsh, axis, j, hop, n, l), g1.extends(g0),
    ensures ola_block(g1, pd, w, sliced, wsh, axis, j, hop, n, l),
{
    g0.lemma_arg_kept(g1, pd, 0);
    if sliced {
        let b = g0.arg(pd, 0);
        g0.lemma_arg_kept(g1, b, 0);
        let sl = g0.arg(b, 0);
        g0.lemma_arg_kept(g1, sl, 0);
    }
}

/// An overlap-add stays one as the graph grows.
pub proof fn lemma_ola_kept(g0: Graph, g1: Graph, id: NodeId, w: NodeId, sliced: bool, wsh: Seq<usize>, axis: int,
    hop: int, n: int, l: int, k: int)
    requires g0.wf(), ola(g0, id, w, sliced, wsh, axis, hop, n, l, k), g1.extends(g0),
    ensures ola(g1, id, w, sliced, wsh, axis, hop, n, l, k),
    decreases k,
{
    if k <= 1 {
        lemma_ola_block_kept(g0, g1, id, w, sliced, wsh, axis, 0, hop, n, l);
    } else {
        g0.lemma_arg_kept(g1, id, 0);
        g0.lemma_arg_kept(g1, id, 1);
        lemma_ola_block_kept(g0, g1, g0.arg(id, 1), w, sliced, wsh, axis, k - 1, hop, n, l);
        lemma_ola_kept(g0, g1, g0.arg(id, 0), w, sliced, wsh, axis, hop, n, l, k - 1);
    }
}

/// Node `id` of `g` is the DFT (or the inverse) of `x` over the first `k` of `axes` in turn,
/// `r` being the rank.
pub open spec fn dfts_upto(g: Graph, id: NodeId, x: NodeId, axes: Seq<usize>, r: nat, inverse: bool, k: int) -> bool
    decreases k,
{
    if k <= 0 {
        id == x
    } else {
        exists|p: NodeId| g.valid(id) && #[trigger] is_dft_of(g, id, p, axes[k - 1], r, inverse)
            && dfts_upto(g, p, x, axes, r, inverse, k - 1)
    }
}

/// A chain of DFTs stays one as the graph grows.
pub proof fn lemma_dfts_kept(g0: Graph, g1: Graph, id: NodeId, x: NodeId, axes: Seq<usize>, r: nat, inverse: bool, k: int)
    requires g0.wf(), dfts_upto(g0, id, x, axes, r, inverse, k), g1.extends(g0), r >= 1,
    ensures dfts_upto(g1, id, x, axes, r, inverse, k),
    decreases k,
{
    if k > 0 {
        let p = choose|p: NodeId| g0.valid(id) && #[trigger] is_dft_of(g0, id, p, axes[k - 1], r, inverse)
            && dfts_upto(g0, p, x, axes, r, inverse, k - 1);
        lemma_dft_kept(g0, g1, id, p, axes[k - 1], r, inverse);
        lemma_dfts_kept(g0, g1, p, x, axes, r, inverse, k - 1);
        g0.lemma_node_kept(g1, id);
        assert(g1.valid(id) && is_dft_of(g1, id, p, axes[k - 1], r, inverse) && dfts_upto(g1, p, x, axes, r, inverse, k - 1));
    }
}

/// Node `id` of `g` completes the half spectrum `x` (shape `s`) to length `n` along `axis`:
/// `x` itself when nothing is missing, otherwise `x` joined with the conjugate of its slices
/// `1 .. n - m + 1` in reverse order (`m = n / 2 + 1`).
pub open spec fn is_hermitian_full(g: Graph, id: NodeId, x: NodeId, s: Seq<usize>, axis: usize, n: usize) -> bool {
    let m = n / 2 + 1;
    let k = n - m;
    let mirror = g.arg(g.arg(id, 1), 0);
    let nim = g.arg(mirror, 1);
    let fl = g.arg(g.arg(mirror, 0), 0);
    let sl = g.arg(fl, 0);
    if k <= 0 {
        id == x
    } else {
        &&& joins(g, id, seq![x, mirror], axis as int, seq![m as usize, k as usize], n as int, 2)
        &&& g.node_is(mirror, Op::Complex, seq![g.arg(mirror, 0), nim])
        &&& g.node_is(g.arg(mirror, 0), Op::Real, seq![fl])
        &&& g.node_is(nim, Op::Neg, seq![g.arg(nim, 0)]) && g.node_is(g.arg(nim, 0), Op::Imag, seq![fl])
        &&& g.srcs(fl) == seq![sl] && (g.opn(fl) matches Op::Flip { axes } && axes@ == seq![axis])
        &&& is_piece(g, sl, x, s, axis as int, 1, 1 + k)
    }
}

/// A Hermitian completion stays one as the graph grows.
pub proof fn lemma_hermitian_kept(g0: Graph, g1: Graph, id: NodeId, x: NodeId, s: Seq<usize>, axis: usize, n: usize)
    requires g0.wf(), g0.valid(x), is_hermitian_full(g0, id, x, s, axis, n), g1.extends(g0),
    ensures is_hermitian_full(g1, id, x, s, axis, n),
{
    let m = n / 2 + 1;
    let k = n - m;
    if k > 0 {
        let p = g0.arg(id, 1);
        let mirror = g0.arg(p, 0);
        let parts = seq![x, mirror];
        let lens = seq![m as usize, k as usize];
        g0.lemma_arg_kept(g1, id, 0);
        g0.lemma_arg_kept(g1, id, 1);
        g0.lemma_arg_kept(g1, p, 0);
        g0.lemma_arg_kept(g1, mirror, 0);
        g0.lemma_arg_kept(g1, mirror, 1);
        let nim = g0.arg(mirror, 1);
        g0.lemma_arg_kept(g1, nim, 0);
        let fl = g0.arg(g0.arg(mirror, 0), 0);
        g0.lemma_arg_kept(g1, g0.arg(mirror, 0), 0);
        g0.lemma_arg_kept(g1, fl, 0);
        assert forall|j: int| 0 <= j < parts.len() implies g0.valid(#[trigger] parts[j]) by {}
        lemma_joins_kept(g0, g1, id, parts, axis as int, lens, n as int, 2);
    }
}

/// Node `id` of `g` scales the spectrum of `x` (shape `s`) along `axis` by the Hilbert
/// multipliers: the product of the DFT of `x` with the gains, held in a constant shaped like
/// the axis, cast and broadcast to `s`.
pub open spec fn is_hilbert_scaled(g: Graph, id: NodeId, x: NodeId, s: Seq<usize>, axis: usize) -> bool {
    let n = s[axis as int];
    let f = g.arg(id, 0);
    let hb = g.arg(id, 1);
    let hc = g.arg(hb, 0);
    let hn = g.arg(hc, 0);
    &&& g.node_is(id, Op::Mul, seq![f, hb])
    &&& is_dft_of(g, f, x, axis, s.len(), false)
    &&& g.srcs(hb) == seq![hc] && (g.opn(hb) matches Op::Expand { shape } && shape@ == s)
    &&& g.opn(hc) is Cast && g.srcs(hc) == seq![hn]
    &&& g.opn(hn) matches Op::Const { data, shape } && shape@ == ones(s.len()).update(axis as int, n)
        && data.spec_dtype() == DType::F32 && data.spec_bytes().len() == 4 * n
        && forall|k: int| 0 <= k < n ==> #[trigger] data.spec_bytes().subrange(4 * k, 4 * k + 4) == le_u32(hilbert_gain(n as nat, k))
}

/// Node `f` of `g` is the frame of `x` (shape `s`) covering `[lo, lo + n)` on `axis`: that
/// slice of `x`, multiplied by the window `w` (reshaped and broadcast to the frame) when one
/// is given.
pub open spec fn is_frame_of(g: Graph, f: NodeId, x: NodeId, s: Seq<usize>, axis: int, lo: int, n: int, window: Option<NodeId>) -> bool {
    &&& g.valid(f)
    &&& match window {
        None => is_piece(g, f, x, s, axis, lo, lo + n),
        Some(w) => {
            let wb = g.arg(f, 1);
            &&& g.node_is(f, Op::Mul, seq![g.arg(f, 0), wb])
            &&& is_piece(g, g.arg(f, 0), x, s, axis, lo, lo + n)
            &&& g.opn(wb) is Expand && g.srcs(wb).len() == 1
            &&& g.opn(g.arg(wb, 0)) is Reshape && g.srcs(g.arg(wb, 0)) == seq![w]
        },
    }
}

/// A frame stays one as the graph grows.
pub proof fn lemma_frame_kept(g0: Graph, g1: Graph, f: NodeId, x: NodeId, s: Seq<usize>, axis: int, lo: int, n: int, window: Option<NodeId>)
    requires g0.wf(), is_frame_of(g0, f, x, s, axis, lo, n, window), g1.extends(g0),
    ensures is_frame_of(g1, f, x, s, axis, lo, n, window),
{
    g0.lemma_node_kept(g1, f);
    if window is Some {
        g0.lemma_arg_kept(g1, f, 0);
        g0.lemma_arg_kept(g1, f, 1);
        g0.lemma_arg_kept(g1, g0.arg(f, 1), 0);
    }
}

/// Node `st` of `g` stacks, along the last axis of `x` (shape `s`), the `nfr` frames of `x`
/// at hop `hop`, each `n` long: frame `k` covers `[k * hop, k * hop + n)`, windowed by
/// `window` when one is given.
pub open spec fn frames_stacked(g: Graph, st: NodeId, x: NodeId, s: Seq<usize>, hop: int, n: int, nfr: int, window: Option<NodeId>) -> bool {
    exists|us: Seq<NodeId>, fr: Seq<NodeId>| #[trigger] stacks(g, st, us, fr, g, s.len() - 1)
        && fr.len() == nfr
        && forall|k: int| 0 <= k < nfr ==> is_frame_of(g, #[trigger] fr[k], x, s, s.len() - 1, k * hop, n, window)
}

/// The short-time transform windows every frame it transforms: with a window `w`, each frame
/// stacked into the DFT is a product of the slice of `x` and `w`, never the bare slice.
pub proof fn law_stft_frames_are_windowed(g: Graph, st: NodeId, x: NodeId, s: Seq<usize>, hop: int, n: int, nfr: int, w: NodeId, k: int)
    requires frames_stacked(g, st, x, s, hop, n, nfr, Some(w)), 0 <= k < nfr,
    ensures exists|us: Seq<NodeId>, fr: Seq<NodeId>| #[trigger] stacks(g, st, us, fr, g, s.len() - 1) && fr.len() == nfr
        && g.opn(fr[k]) == Op::Mul && is_piece(g, g.arg(fr[k], 0), x, s, s.len() - 1, k * hop, k * hop + n)
        && g.srcs(g.arg(g.arg(fr[k], 1), 0)) == seq![w],
{
    let (us, fr) = choose|us: Seq<NodeId>, fr: Seq<NodeId>| #[trigger] stacks(g, st, us, fr, g, s.len() - 1)
        && fr.len() == nfr
        && forall|j: int| 0 <= j < nfr ==> is_frame_of(g, #[trigger] fr[j], x, s, s.len() - 1, j * hop, n, Some(w));
    assert(is_frame_of(g, fr[k], x, s, s.len() - 1, k * hop, n, Some(w)));
}

impl Graph {
    /// Transform `x` along each of `axes` in turn.
    #[verifier::loop_isolation(false)]
    fn dftn(&mut self, x: NodeId, axes: &[usize], inverse: bool) -> (r: Result<NodeId, Error>)
        requires
            old(self).wf(), old(self).valid(x), old(self).room(DFT_ROOM as nat * axes@.len()),
            dftn_fits(old(self).sh(x), axes@),
        ensures
            final(self).wf(), final(self).grew(*old(self), DFT_ROOM as nat * axes@.len()),
            r is Ok <==> axes_below(axes@, old(self).sh(x).len()),
            r matches Ok(id) ==> final(self).valid(id) && final(self).sh(id) == old(self).sh(x)
                && final(self).dt(id) == dftn_dtype(old(self).dt(x), axes@.len()),
            r matches Ok(id) ==> dfts_upto(*final(self), id, x, axes@, old(self).sh(x).len(), inverse, axes@.len() as int),
    {
        let ghost g0 = *self;
        let mut cur = x;
        let mut i: usize = 0;
        while i < axes.len()
            invariant
                i <= axes@.len(), self.wf(), self.grew(g0, DFT_ROOM as nat * i as nat),
                self.valid(cur), self.sh(cur) == g0.sh(x), self.dt(cur) == dftn_dtype(g0.dt(x), i as nat),
                forall|j: int| 0 <= j < i ==> (#[trigger] axes@[j]) < g0.sh(x).len(),
                dfts_upto(*self, cur, x, axes@, g0.sh(x).len(), inverse, i as int),
            decreases axes@.len() - i,
        {
            let ghost gp = *self;
            let ghost prev = cur;
            assert(DFT_ROOM as nat * (i + 1) as nat == DFT_ROOM as nat * i as nat + DFT_ROOM as nat) by (nonlinear_arith);
            assert(DFT_ROOM as nat * i as nat + DFT_ROOM as nat <= DFT_ROOM as nat * axes@.len()) by (nonlinear_arith)
                requires i < axes@.len();
            let r = if inverse { self.ifft(cur, axes[i]) } else { self.fft(cur, axes[i]) };
            cur = match r {
                Ok(c) => c,
                Err(e) => {
                    assert(!axes_below(axes@, g0.sh(x).len()));
                    return Err(e);
                },
            };
            proof {
                lemma_dfts_kept(gp, *self, prev, x, axes@, g0.sh(x).len(), inverse, i as int);
            }
            i = i + 1;
            proof {
                assert(self.valid(cur) && is_dft_of(*self, cur, prev, axes@[i - 1], g0.sh(x).len(), inverse)
                    && dfts_upto(*self, prev, x, axes@, g0.sh(x).len(), inverse, i - 1));
            }
        }
        Ok(cur)
    }

    /// FFT along each axis of `axes`, in order (real input promotes to complex).
    pub fn fftn(&mut self, x: NodeId, axes: &[usize]) -> (r: Result<NodeId, Error>)
        requires
            old(self).wf(), old(self).valid(x), old(self).room(DFT_ROOM as nat * axes@.len()),
            dftn_fits(old(self).sh(x), axes@),
        ensures
            final(self).wf(), final(self).grew(*old(self), DFT_ROOM as nat * axes@.len()),
            r is Ok <==> axes_below(axes@, old(self).sh(x).len()),
            r matches Ok(id) ==> final(self).valid(id) && final(self).sh(id) == old(self).sh(x)
                && final(self).dt(id) == dftn_dtype(old(self).dt(x), axes@.len()),
            r matches Ok(id) ==> dfts_upto(*final(self), id, x, axes@, old(self).sh(x).len(), false, axes@.len() as int),
    {
        self.dftn(x, axes, false)
    }

    /// Inverse FFT along each axis of `axes`, in order.
    pub fn ifftn(&mut self, x: NodeId, axes: &[usize]) -> (r: Result<NodeId, Error>)
        requires
            old(self).wf(), old(self).valid(x), old(self).room(DFT_ROOM as nat * axes@.len()),
            dftn_fits(old(self).sh(x), axes@),
        ensures
            final(self).wf(), final(self).grew(*old(self), DFT_ROOM as nat * axes@.len()),
            r is Ok <==> axes_below(axes@, old(self).sh(x).len()),
            r matches Ok(id) ==> final(self).valid(id) && final(self).sh(id) == old(self).sh(x)
                && final(self).dt(id) == dftn_dtype(old(self).dt(x), axes@.len()),
            r matches Ok(id) ==> dfts_upto(*final(self), id, x, axes@, old(self).sh(x).len(), true, axes@.len() as int),
    {
        self.dftn(x, axes, true)
    }

    /// Transform over the last two axes.
    fn dft2(&mut self, x: NodeId, inverse: bool) -> (r: Result<NodeId, Error>)
        requires
            old(self).wf(), old(self).valid(x), old(self).room(2 * DFT_ROOM as nat),
            old(self).sh(x).len() >= 2 ==> dft_fits(old(self).sh(x)[old(self).sh(x).len() - 2])
                && dft_fits(old(self).sh(x)[old(self).sh(x).len() - 1]),
        ensures
            final(self).wf(), final(self).grew(*old(self), 2 * DFT_ROOM as nat),
            r is Ok <==> old(self).sh(x).len() >= 2,
            r matches Ok(id) ==> final(self).valid(id) && final(self).sh(id) == old(self).sh(x)
                && final(self).dt(id) == dft_dtype(old(self).dt(x)),
            r matches Ok(id) ==> dfts_upto(*final(self), id, x,
                seq![(old(self).sh(x).len() - 2) as usize, (old(self).sh(x).len() - 1) as usize], old(self).sh(x).len(), inverse, 2),
    {
        let r = self.rank(x);
        if r < 2 {
            return Err(Error::new(if inverse { "ifft2" } else { "fft2" }, ErrorKind::Invalid));
        }
        let axes: Vec<usize> = vec![r - 2, r - 1];
        assert(axes@ =~= seq![(r - 2) as usize, (r - 1) as usize]);
        assert(axes_below(axes@, r as nat));
        self.dftn(x, axes.as_slice(), inverse)
    }

    /// 2-D FFT over the last two axes.
    pub fn fft2(&mut self, x: NodeId) -> (r: Result<NodeId, Error>)
        requires
            old(self).wf(), old(self).valid(x), old(self).room(2 * DFT_ROOM as nat),
            old(self).sh(x).len() >= 2 ==> dft_fits(old(self).sh(x)[old(self).sh(x).len() - 2])
                && dft_fits(old(self).sh(x)[old(self).sh(x).len() - 1]),
        ensures
            final(self).wf(), final(self).grew(*old(self), 2 * DFT_ROOM as nat),
            r is Ok <==> old(self).sh(x).len() >= 2,
            r matches Ok(id) ==> final(self).valid(id) && final(self).sh(id) == old(self).sh(x)
                && final(self).dt(id) == dft_dtype(old(self).dt(x)),
            r matches Ok(id) ==> dfts_upto(*final(self), id, x,
                seq![(old(self).sh(x).len() - 2) as usize, (old(self).sh(x).len() - 1) as usize], old(self).sh(x).len(), false, 2),
    {
        self.dft2(x, false)
    }

    /// Inverse 2-D FFT over the last two axes.
    pub fn ifft2(&mut self, x: NodeId) -> (r: Result<NodeId, Error>)
        requires
            old(self).wf(), old(self).valid(x), old(self).room(2 * DFT_ROOM as nat),
            old(self).sh(x).len() >= 2 ==> dft_fits(old(self).sh(x)[old(self).sh(x).len() - 2])
                && dft_fits(old(self).sh(x)[old(self).sh(x).len() - 1]),
        ensures
            final(self).wf(), final(self).grew(*old(self), 2 * DFT_ROOM as nat),
            r is Ok <==> old(self).sh(x).len() >= 2,
            r matches Ok(id) ==> final(self).valid(id) && final(self).sh(id) == old(self).sh(x)
                && final(self).dt(id) == dft_dtype(old(self).dt(x)),
            r matches Ok(id) ==> dfts_upto(*final(self), id, x,
                seq![(old(self).sh(x).len() - 2) as usize, (old(self).sh(x).len() - 1) as usize], old(self).sh(x).len(), true, 2),
    {
        self.dft2(x, true)
    }

    /// Real FFT along `axis`: the non-redundant half `n/2 + 1` of `fft(x)` (`n >= 1`).
    pub fn rfft(&mut self, x: NodeId, axis: usize) -> (r: Result<NodeId, Error>)
        requires
            old(self).wf(), old(self).valid(x), old(self).room(DFT_ROOM as nat + 1),
            axis < old(self).sh(x).len() ==> dft_fits(old(self).sh(x)[axis as int]),
        ensures
            final(self).wf(), final(self).grew(*old(self), DFT_ROOM as nat + 1),
            r is Ok <==> axis < old(self).sh(x).len() && old(self).sh(x)[axis as int] >= 1,
            r matches Ok(id) ==> final(self).valid(id)
                && final(self).sh(id) == old(self).sh(x).update(axis as int, (old(self).sh(x)[axis as int] / 2 + 1) as usize)
                && final(self).dt(id) == dft_dtype(old(self).dt(x)),
            r matches Ok(id) ==> is_piece(*final(self), id, final(self).arg(id, 0), old(self).sh(x), axis as int,
                    0, old(self).sh(x)[axis as int] / 2 + 1)
                && is_dft_of(*final(self), final(self).arg(id, 0), x, axis, old(self).sh(x).len(), false),
    {
        let sh = self.shape(x);
        if axis >= sh.len() {
            return Err(Error::new("rfft", ErrorKind::AxisOutOfRange { axis, rank: sh.len() }));
        }
        let n = sh[axis];
        let f = ok_id(self.fft(x, axis));
        let ghost gf = *self;
        let fs = self.shape(f);
        let ranges = axis_ranges(&fs, axis, 0, n / 2 + 1);
        proof {
            assert(fs@ == sh@);
            assert(ranges@[axis as int] == (0usize, (n / 2 + 1) as usize));
            if n >= 1 {
                assert forall|d: int| 0 <= d < ranges@.len() implies (#[trigger] ranges@[d]).0 <= ranges@[d].1 <= fs@[d] by {}
                assert(ranges@.map_values(|q: (usize, usize)| (q.1 - q.0) as usize) =~= sh@.update(axis as int, (n / 2 + 1) as usize));
            } else {
                assert(!(ranges@[axis as int].0 <= ranges@[axis as int].1 <= fs@[axis as int]));
            }
        }
        let r = self.slice(f, ranges);
        proof {
            if r is Ok {
                crate::graph::ops::base::fft::lemma_dft_kept(gf, *self, f, x, axis, sh@.len(), false);
            }
        }
        r
    }

    /// Inverse real FFT along `axis`: a half spectrum of length `n/2 + 1` back to a real
    /// length-`n` signal, the mirror half rebuilt by Hermitian symmetry.
    #[verifier::spinoff_prover]
    #[verifier::rlimit(40)]
    pub fn irfft(&mut self, x: NodeId, axis: usize, n: usize) -> (r: Result<NodeId, Error>)
        requires
            old(self).wf(), old(self).valid(x), old(self).room(DFT_ROOM as nat + 12),
            axis < old(self).sh(x).len() && old(self).sh(x)[axis as int] == n / 2 + 1 ==> n >= 1 && dft_fits(n),
        ensures
            final(self).wf(), final(self).grew(*old(self), DFT_ROOM as nat + 12),
            r is Ok <==> axis < old(self).sh(x).len() && old(self).sh(x)[axis as int] == n / 2 + 1
                && (n - (n / 2 + 1) == 0 || old(self).dt(x).spec_is_complex()),
            r matches Ok(id) ==> final(self).valid(id)
                && final(self).sh(id) == old(self).sh(x).update(axis as int, n)
                && final(self).dt(id) == dft_dtype(old(self).dt(x)).spec_real_dtype(),
            r matches Ok(id) ==> final(self).node_is(id, Op::Real, seq![final(self).arg(id, 0)])
                && exists|full: NodeId| #[trigger] is_dft_of(*final(self), final(self).arg(id, 0), full, axis, old(self).sh(x).len(), true)
                    && is_hermitian_full(*final(self), full, x, old(self).sh(x), axis, n),
    {
        let ghost g0 = *self;
        let sh = self.shape(x);
        if axis >= sh.len() {
            return Err(Error::new("irfft", ErrorKind::AxisOutOfRange { axis, rank: sh.len() }));
        }
        let m = n / 2 + 1;
        if sh[axis] != m {
            return Err(Error::new("irfft", ErrorKind::Invalid));
        }
        let n_mirror = n - m;
        let full = if n_mirror == 0 {
            assert(sh@.update(axis as int, n) =~= sh@);
            x
        } else {
            let ranges = axis_ranges(&sh, axis, 1, 1 + n_mirror);
            let mid = self.slice(x, ranges);
            assert(mid is Ok) by {
                assert forall|d: int| 0 <= d < ranges@.len() implies (#[trigger] ranges@[d]).0 <= ranges@[d].1 <= sh@[d] by {}
            }
            let mid = ok_id(mid);
            assert(self.sh(mid) =~= sh@.update(axis as int, n_mirror));
            let axes: Vec<usize> = vec![axis];
            assert(axes@ =~= seq![axis]);
            let flipped = ok_id(self.flip(mid, axes));
            let mirror = self.conj(flipped)?;
            let parts: Vec<NodeId> = vec![x, mirror];
            let ghost ps = parts@;
            assert(ps =~= seq![x, mirror]);
            assert(crate::graph::ops::base::join::axis_lens(*self, ps, axis as int) =~= seq![m, n_mirror]);
            assert(crate::graph::ops::base::join::prefix_sum(seq![m, n_mirror], 2) == n) by {
                assert(crate::graph::ops::base::join::prefix_sum(seq![m, n_mirror], 1) == m) by {
                    assert(crate::graph::ops::base::join::prefix_sum(seq![m, n_mirror], 0) == 0);
                }
            }
            assert(crate::graph::ops::base::join::concat_ok(*self, ps, axis as int)) by {
                assert(self.sh(mirror).update(axis as int, 0) =~= sh@.update(axis as int, 0));
            }
            let ghost gm = *self;
            let c = ok_id(self.concat(parts.as_slice(), axis));
            assert(self.sh(c) =~= sh@.update(axis as int, n));
            proof {
                assert(crate::graph::ops::base::join::axis_lens(gm, ps, axis as int) =~= seq![m, n_mirror]);
                gm.lemma_node_kept(*self, mirror);
                gm.lemma_arg_kept(*self, mirror, 0);
                gm.lemma_arg_kept(*self, mirror, 1);
                gm.lemma_arg_valid(mirror, 1);
                gm.lemma_arg_kept(*self, gm.arg(mirror, 1), 0);
                gm.lemma_arg_valid(mirror, 0);
                gm.lemma_node_kept(*self, flipped);
                gm.lemma_node_kept(*self, mid);
                assert(ranges@ =~= axis_window(sh@, axis as int, 1, (1 + n_mirror) as usize));
                assert(is_hermitian_full(*self, c, x, sh@, axis, n));
            }
            c
        };
        let ghost gf = *self;
        let inv = ok_id(self.ifft(full, axis));
        let ghost gi = *self;
        let r = self.real_part(inv);
        proof {
            if r is Ok {
                lemma_hermitian_kept(gf, *self, full, x, sh@, axis, n);
                lemma_dft_kept(gi, *self, inv, full, axis, sh@.len(), true);
                assert(is_dft_of(*self, self.arg(r->Ok_0, 0), full, axis, sh@.len(), true));
            }
        }
        r
    }

    /// Circular convolution along `axis` by FFT, `ifft(fft(a) * fft(b))`; the real part for
    /// real inputs.
    #[verifier::spinoff_prover]
    #[verifier::rlimit(40)]
    pub fn fft_conv(&mut self, a: NodeId, b: NodeId, axis: usize) -> (r: Result<NodeId, Error>)
        requires
            old(self).wf(), old(self).valid(a), old(self).valid(b), old(self).room(3 * DFT_ROOM as nat + 2),
            axis < old(self).sh(a).len() ==> dft_fits(old(self).sh(a)[axis as int]),
            axis < old(self).sh(b).len() ==> dft_fits(old(self).sh(b)[axis as int]),
        ensures
            final(self).wf(), final(self).grew(*old(self), 3 * DFT_ROOM as nat + 2),
            r is Ok <==> axis < old(self).sh(a).len() && axis < old(self).sh(b).len()
                && old(self).sh(a) == old(self).sh(b) && dft_dtype(old(self).dt(a)) == dft_dtype(old(self).dt(b)),
            r matches Ok(id) ==> final(self).valid(id) && final(self).sh(id) == old(self).sh(a)
                && final(self).dt(id) == (if old(self).dt(a).spec_is_complex() { old(self).dt(a) }
                    else { dft_dtype(old(self).dt(a)).spec_real_dtype() }),
    {
        let real_in = !self.dtype(a).is_complex();
        let fa = self.fft(a, axis)?;
        let fb = self.fft(b, axis)?;
        let prod = self.mul(fa, fb)?;
        let conv = ok_id(self.ifft(prod, axis));
        if real_in {
            self.real_part(conv)
        } else {
            Ok(conv)
        }
    }

    /// Analytic signal along `axis` (Hilbert transform): `ifft(fft(x) * H)` with the
    /// one-sided multiplier `H`; complex output whose imaginary part is the transform.
    #[verifier::spinoff_prover]
    #[verifier::rlimit(40)]
    pub fn hilbert(&mut self, x: NodeId, axis: usize) -> (r: Result<NodeId, Error>)
        requires
            old(self).wf(), old(self).valid(x), old(self).room(2 * DFT_ROOM as nat + 4),
            axis < old(self).sh(x).len() ==> old(self).sh(x)[axis as int] >= 1 && dft_fits(old(self).sh(x)[axis as int]),
        ensures
            final(self).wf(), final(self).grew(*old(self), 2 * DFT_ROOM as nat + 4),
            r is Ok <==> axis < old(self).sh(x).len(),
            r matches Ok(id) ==> final(self).valid(id) && final(self).sh(id) == old(self).sh(x)
                && final(self).dt(id) == dft_dtype(old(self).dt(x)),
            r matches Ok(id) ==> exists|af: NodeId| #[trigger] is_dft_of(*final(self), id, af, axis, old(self).sh(x).len(), true)
                && is_hilbert_scaled(*final(self), af, x, old(self).sh(x), axis),
    {
        let sh = self.shape(x);
        if axis >= sh.len() {
            return Err(Error::new("hilbert", ErrorKind::AxisOutOfRange { axis, rank: sh.len() }));
        }
        let n = sh[axis];
        let f = ok_id(self.fft(x, axis));
        let ghost g1 = *self;
        assert(n * 4 <= usize::MAX) by (nonlinear_arith) requires n * n * 8 <= usize::MAX, n >= 1;
        let h = hilbert_gains(n);
        let cdt = self.dtype(f);
        let mut wsh = ones_vec(sh.len());
        wsh.set(axis, n);
        let hn = self.const_storage(h, wsh);
        let ghost g2 = *self;
        let hc = self.cast(hn, cdt);
        let ghost g3 = *self;
        let ghost s0 = sh@;
        let hb = self.expand(hc, sh);
        assert(hb is Ok) by {
            assert(crate::graph::shape::expand_ok(ones(s0.len()).update(axis as int, n), s0));
        }
        let hb = ok_id(hb);
        let ghost g4 = *self;
        let af = ok_id(self.mul(f, hb));
        let ghost g5 = *self;
        let r = self.ifft(af, axis);
        proof {
            if r is Ok {
                lemma_dft_kept(g1, *self, f, x, axis, s0.len(), false);
                g2.lemma_node_kept(*self, hn);
                g3.lemma_node_kept(*self, hc);
                g4.lemma_node_kept(*self, hb);
                g5.lemma_node_kept(*self, af);
                assert(is_hilbert_scaled(*self, af, x, s0, axis));
            }
        }
        r
    }

    /// Short-time FFT over the last axis: frames of `n_fft` samples every `hop`, each times
    /// `window` when given, stacked and transformed: `[.., n_frames, n_fft]` complex.
    #[verifier::loop_isolation(false)]
    #[verifier::spinoff_prover]
    #[verifier::rlimit(60)]
    pub fn stft(&mut self, x: NodeId, n_fft: usize, hop: usize, window: Option<NodeId>) -> (r: Result<NodeId, Error>)
        requires
            old(self).wf(), old(self).valid(x), old(self).sh(x).len() >= 1,
            numel(old(self).sh(x)) <= usize::MAX, dft_fits(n_fft),
            window matches Some(w) ==> old(self).valid(w) && numel(old(self).sh(w)) <= usize::MAX,
            hop > 0 && n_fft <= old(self).sh(x).last() ==> old(self).room(
                5 * n_frames(old(self).sh(x).last() as int, n_fft as int, hop as int) as nat + DFT_ROOM as nat + 3),
        ensures
            final(self).wf(),
            r is Ok <==> n_fft > 0 && hop > 0 && n_fft <= old(self).sh(x).last()
                && stft_window_ok(*old(self), window, n_fft, old(self).dt(x)),
            r matches Ok(id) ==> final(self).valid(id) && final(self).grew(*old(self),
                    5 * n_frames(old(self).sh(x).last() as int, n_fft as int, hop as int) as nat + DFT_ROOM as nat + 3)
                && final(self).sh(id) == old(self).sh(x).drop_last().push(
                    n_frames(old(self).sh(x).last() as int, n_fft as int, hop as int) as usize).push(n_fft)
                && final(self).dt(id) == dft_dtype(old(self).dt(x)),
            r is Err ==> *final(self) == *old(self),
            r matches Ok(id) ==> exists|st: NodeId| #[trigger] is_dft_of(*final(self), id, st, old(self).sh(x).len() as usize, old(self).sh(x).len() + 1, false)
                && frames_stacked(*final(self), st, x, old(self).sh(x), hop as int, n_fft as int,
                    n_frames(old(self).sh(x).last() as int, n_fft as int, hop as int), window),
    {
        let ghost g0 = *self;
        let sh = self.shape(x);
        let last = sh.len() - 1;
        let l = sh[last];
        if n_fft == 0 || hop == 0 || l < n_fft {
            return Err(Error::new("stft", ErrorKind::Invalid));
        }
        let nfr = (l - n_fft) / hop + 1;
        assert(nfr >= 1 && nfr <= l + 1) by {
            vstd::arithmetic::div_mod::lemma_div_is_ordered_by_denominator((l - n_fft) as int, 1, hop as int);
        }
        let ghost fsh = sh@.update(last as int, n_fft);
        proof { lemma_numel_update_le(sh@, last as int, n_fft); }
        let mut fshv = self.shape(x);
        fshv.set(last, n_fft);
        match window {
            Some(w) => {
                let wd = self.dtype(w);
                if wd != self.dtype(x) || !wd.is_arith() {
                    return Err(Error::new("stft", ErrorKind::DTypeClass(wd)));
                }
            },
            None => {},
        }
        let win = match window {
            Some(w) => {
                let mut wsh = ones_vec(sh.len());
                wsh.set(last, n_fft);
                proof {
                    crate::graph::shape::lemma_numel_ones(sh@.len());
                    assert(ones(sh@.len()) =~= Seq::new(sh@.len(), |i: int| 1usize));
                }
                assert(numel(wsh@) == n_fft) by {
                    let o = ones(sh@.len());
                    assert(wsh@ =~= o.update(last as int, n_fft));
                    assert(o =~= o.drop_last().push(1usize));
                    assert(wsh@ =~= o.drop_last().push(n_fft));
                    assert(wsh@.drop_last() =~= o.drop_last());
                    crate::graph::shape::lemma_numel_ones((sh@.len() - 1) as nat);
                    assert(o.drop_last() =~= Seq::new((sh@.len() - 1) as nat, |i: int| 1usize));
                }
                let wr = self.reshape(w, wsh)?;
                let wb = self.broadcast_to(wr, fshv);
                assert(wb is Ok) by {
                    assert(crate::graph::shape::left_pad_ones(self.sh(wr), fsh.len()) =~= self.sh(wr));
                }
                Some(ok_id(wb))
            },
            None => None,
        };
        let mut frames: Vec<NodeId> = Vec::new();
        let mut i: usize = 0;
        while i < nfr
            invariant
                i <= nfr, frames@.len() == i, self.wf(), self.grew(g0, 3 + 2 * i as nat),
                forall|k: int| 0 <= k < i ==> self.valid(#[trigger] frames@[k]) && self.sh(frames@[k]) == fsh
                    && self.dt(frames@[k]) == g0.dt(x),
                window matches Some(w0) ==> (win matches Some(wb) && self.valid(wb) && self.sh(wb) == fsh
                    && self.dt(wb) == g0.dt(w0) && numel(g0.sh(w0)) == n_fft),
                window is None ==> win is None,
                window matches Some(w0) ==> g0.dt(w0) == g0.dt(x) && g0.dt(x).spec_is_arith(),
                window matches Some(w0) ==> (win matches Some(wb) && self.opn(wb) is Expand && self.srcs(wb).len() == 1
                    && self.opn(self.arg(wb, 0)) is Reshape && self.srcs(self.arg(wb, 0)) == seq![w0]),
                forall|k: int| 0 <= k < i ==> is_frame_of(*self, #[trigger] frames@[k], x, sh@, last as int, k * hop, n_fft as int, window),
            decreases nfr - i,
        {
            let ghost gi = *self;
            assert(i * hop + n_fft <= l) by (nonlinear_arith)
                requires i < nfr, nfr == (l - n_fft) as int / hop as int + 1, hop > 0, n_fft <= l;
            let ranges = axis_ranges(&sh, last, i * hop, i * hop + n_fft);
            proof {
                assert forall|d: int| 0 <= d < ranges@.len() implies (#[trigger] ranges@[d]).0 <= ranges@[d].1 <= sh@[d] by {}
                assert(ranges@.map_values(|q: (usize, usize)| (q.1 - q.0) as usize) =~= fsh);
            }
            let frame = ok_id(self.slice(x, ranges));
            let ghost gs = *self;
            let ghost sl = frame;
            let frame = match win {
                Some(w) => ok_id(self.mul(frame, w)),
                None => frame,
            };
            proof {
                assert(ranges@ =~= axis_window(sh@, last as int, (i * hop) as usize, (i * hop + n_fft) as usize));
                if let Some(wb) = win {
                    gs.lemma_node_kept(*self, sl);
                    gi.lemma_node_kept(*self, wb);
                    gi.lemma_arg_kept(*self, wb, 0);
                }
                assert(is_frame_of(*self, frame, x, sh@, last as int, i * hop, n_fft as int, window));
                assert forall|k: int| 0 <= k < i implies is_frame_of(*self, #[trigger] frames@[k], x, sh@, last as int, k * hop, n_fft as int, window) by {
                    lemma_frame_kept(gi, *self, frames@[k], x, sh@, last as int, k * hop, n_fft as int, window);
                }
            }
            frames.push(frame);
            i = i + 1;
        }
        proof {
            assert forall|k: int| 0 <= k < frames@.len() implies last <= self.sh(#[trigger] frames@[k]).len()
                && numel(self.sh(frames@[k])) <= usize::MAX by {}
        }
        let ghost gf = *self;
        let stacked = self.stack(frames.as_slice(), last);
        let stacked = match stacked {
            Ok(st) => st,
            Err(e) => {
                assert(self.sh(frames@[0]) == fsh);
                return Err(e);
            },
        };
        let ghost gt = *self;
        let ghost ssh = fsh.insert(last as int, nfr);
        assert(ssh =~= sh@.drop_last().push(nfr).push(n_fft));
        assert(n_fft * n_fft * 8 <= usize::MAX);
        let res = self.fft(stacked, last + 1);
        proof {
            if res is Ok {
                let fr = frames@;
                let us = choose|us: Seq<NodeId>| #[trigger] stacks(gt, stacked, us, fr, gf, last as int);
                lemma_stacks_kept(gt, *self, stacked, us, fr, gf, last as int);
                assert forall|k: int| 0 <= k < nfr implies is_frame_of(*self, #[trigger] fr[k], x, sh@, last as int, k * hop, n_fft as int, window) by {
                    lemma_frame_kept(gf, *self, fr[k], x, sh@, last as int, k * hop, n_fft as int, window);
                }
                assert(stacks(*self, stacked, us, fr, *self, sh@.len() - 1)) by {
                    assert forall|j: int| 0 <= j < fr.len() implies gf.sh(#[trigger] fr[j]) == self.sh(fr[j]) by {
                        gf.lemma_node_kept(*self, fr[j]);
                    }
                }
                assert(frames_stacked(*self, stacked, x, sh@, hop as int, n_fft as int, nfr as int, window));
                assert(is_dft_of(*self, res->Ok_0, stacked, sh@.len() as usize, sh@.len() + 1, false));
            }
        }
        res
    }

    /// Overlap-add of `time` frames `[.., nf, n_fft]` (real) at hop `hop` into `[.., l]`.
    #[verifier::loop_isolation(false)]
    #[verifier::spinoff_prover]
    #[verifier::rlimit(60)]
    fn overlap_add(&mut self, time: NodeId, hop: usize, l: usize) -> (num: NodeId)
        requires
            old(self).wf(), old(self).valid(time), old(self).sh(time).len() >= 2,
            numel(old(self).sh(time)) <= usize::MAX,
            old(self).sh(time)[old(self).sh(time).len() - 2] >= 1,
            l == istft_len(old(self).sh(time)[old(self).sh(time).len() - 2] as int, hop as int,
                old(self).sh(time).last() as int),
            old(self).dt(time).spec_is_arith(),
            old(self).room(4 * old(self).sh(time)[old(self).sh(time).len() - 2] as nat),
        ensures
            final(self).wf(), final(self).grew(*old(self), 4 * old(self).sh(time)[old(self).sh(time).len() - 2] as nat),
            final(self).valid(num), final(self).dt(num) == old(self).dt(time),
            final(self).sh(num) == old(self).sh(time).take(old(self).sh(time).len() - 2).push(l),
            ola(*final(self), num, time, true, old(self).sh(time), old(self).sh(time).len() - 2, hop as int,
                old(self).sh(time).last() as int, l as int, old(self).sh(time)[old(self).sh(time).len() - 2] as int),
    {
        let ghost g0 = *self;
        let tsh = self.shape(time);
        let r = tsh.len();
        let nf = tsh[r - 2];
        let n_fft = tsh[r - 1];
        let ghost want = tsh@.take(r - 2).push(l);
        let ghost fsh = tsh@.update(r - 2, 1usize);
        proof { lemma_numel_update_le(tsh@, r - 2, 1); }
        let mut num: NodeId = time;
        let mut i: usize = 0;
        while i < nf
            invariant
                i <= nf, self.wf(), self.grew(g0, 4 * i as nat),
                i >= 1 ==> self.valid(num) && self.sh(num) == want && self.dt(num) == g0.dt(time),
                i >= 1 ==> ola(*self, num, time, true, tsh@, (r - 2) as int, hop as int, n_fft as int, l as int, i as int),
            decreases nf - i,
        {
            assert(i * hop + n_fft <= l) by (nonlinear_arith)
                requires i < nf, l == (nf - 1) * hop + n_fft;
            let ranges = axis_ranges(&tsh, r - 2, i, i + 1);
            proof {
                assert forall|d: int| 0 <= d < ranges@.len() implies (#[trigger] ranges@[d]).0 <= ranges@[d].1 <= tsh@[d] by {}
                assert(ranges@.map_values(|q: (usize, usize)| (q.1 - q.0) as usize) =~= fsh);
            }
            let ghost gs = *self;
            let ghost r0 = ranges@;
            let sl = ok_id(self.slice(time, ranges));
            let fr = ok_id(self.squeeze(sl, r - 2));
            assert(fsh.remove(r - 2) =~= tsh@.take(r - 2).push(n_fft));
            let pads = axis_pads(r - 1, r - 2, i * hop, l - i * hop - n_fft);
            let padded = self.pad(fr, pads);
            assert(padded is Ok);
            let padded = ok_id(padded);
            assert(self.sh(padded) =~= want);
            let ghost gp = *self;
            proof {
                assert(ola_block(*self, padded, time, true, tsh@, (r - 2) as int, i as int, hop as int, n_fft as int, l as int));
            }
            if i == 0 {
                num = padded;
            } else {
                let ghost num0 = num;
                num = ok_id(self.add(num, padded));
                proof {
                    lemma_ola_kept(gs, *self, num0, time, true, tsh@, (r - 2) as int, hop as int, n_fft as int, l as int, i as int);
                    lemma_ola_block_kept(gp, *self, padded, time, true, tsh@, (r - 2) as int, i as int, hop as int, n_fft as int, l as int);
                }
            }
            i = i + 1;
        }
        num
    }

    /// Overlap-add of the squared window `w2` (`[n_fft]`) over `nf` frames: `[l]`.
    #[verifier::loop_isolation(false)]
    fn window_envelope(&mut self, w2: NodeId, nf: usize, hop: usize, l: usize) -> (den: NodeId)
        requires
            old(self).wf(), old(self).valid(w2), old(self).sh(w2).len() == 1, nf >= 1,
            l == istft_len(nf as int, hop as int, old(self).sh(w2)[0] as int),
            old(self).dt(w2).spec_is_arith(), old(self).room(2 * nf as nat),
        ensures
            final(self).wf(), final(self).grew(*old(self), 2 * nf as nat),
            final(self).valid(den), final(self).dt(den) == old(self).dt(w2), final(self).sh(den) == seq![l],
            ola(*final(self), den, w2, false, old(self).sh(w2), 0, hop as int, old(self).sh(w2)[0] as int, l as int, nf as int),
    {
        let ghost g0 = *self;
        let n_fft = self.shape(w2)[0];
        let mut den: NodeId = w2;
        let mut i: usize = 0;
        while i < nf
            invariant
                i <= nf, self.wf(), self.grew(g0, 2 * i as nat),
                i >= 1 ==> self.valid(den) && self.sh(den) == seq![l] && self.dt(den) == g0.dt(w2),
                i >= 1 ==> ola(*self, den, w2, false, g0.sh(w2), 0, hop as int, n_fft as int, l as int, i as int),
                g0.valid(w2), self.nodes@[w2.0 as int] == g0.nodes@[w2.0 as int],
            decreases nf - i,
        {
            assert(i * hop + n_fft <= l) by (nonlinear_arith)
                requires i < nf, l == (nf - 1) * hop + n_fft;
            let before = i * hop;
            let after = l - before - n_fft;
            let pads: Vec<(usize, usize)> = vec![(before, after)];
            let ghost gs = *self;
            let padded = self.pad(w2, pads);
            assert(padded is Ok);
            let padded = ok_id(padded);
            assert(self.sh(padded) =~= seq![l]);
            let ghost gp = *self;
            proof {
                assert(ola_block(*self, padded, w2, false, g0.sh(w2), 0, i as int, hop as int, n_fft as int, l as int));
            }
            if i == 0 {
                den = padded;
            } else {
                let ghost den0 = den;
                den = ok_id(self.add(den, padded));
                proof {
                    lemma_ola_kept(gs, *self, den0, w2, false, g0.sh(w2), 0, hop as int, n_fft as int, l as int, i as int);
                    lemma_ola_block_kept(gp, *self, padded, w2, false, g0.sh(w2), 0, i as int, hop as int, n_fft as int, l as int);
                }
            }
            i = i + 1;
        }
        den
    }

    /// Inverse STFT by overlap-add: complex `[.., n_frames, n_fft]` to real `[.., l]` with
    /// `l = (n_frames - 1) * hop + n_fft`, the frames times the synthesis `window` (ones when
    /// absent) and divided by the overlap-added squared window (plus `1e-8`).
    #[verifier::spinoff_prover]
    #[verifier::rlimit(80)]
    pub fn istft(&mut self, frames: NodeId, hop: usize, window: Option<NodeId>) -> (r: Result<NodeId, Error>)
        requires
            old(self).wf(), old(self).valid(frames), numel(old(self).sh(frames)) <= usize::MAX,
            window matches Some(w) ==> old(self).valid(w) && numel(old(self).sh(w)) <= usize::MAX,
            old(self).sh(frames).len() >= 2 && hop > 0 ==> ({
                let s = old(self).sh(frames);
                let nf = s[s.len() - 2];
                &&& nf >= 1
                &&& istft_len(nf as int, hop as int, s.last() as int) <= usize::MAX
                &&& dft_fits(s.last())
                &&& old(self).room(6 * nf as nat + DFT_ROOM as nat + 16)
            }),
        ensures
            final(self).wf(),
            r is Ok <==> old(self).sh(frames).len() >= 2 && hop > 0
                && istft_window_ok(*old(self), window, old(self).sh(frames).last(),
                    dft_dtype(old(self).dt(frames)).spec_real_dtype()),
            r matches Ok(id) ==> ({
                let s = old(self).sh(frames);
                let nf = s[s.len() - 2];
                &&& final(self).valid(id)
                &&& final(self).grew(*old(self), 6 * nf as nat + DFT_ROOM as nat + 16)
                &&& final(self).sh(id) == s.take(s.len() - 2).push(istft_len(nf as int, hop as int, s.last() as int) as usize)
                &&& final(self).dt(id) == dft_dtype(old(self).dt(frames)).spec_real_dtype()
            }),
            r is Err ==> *final(self) == *old(self),
            r matches Ok(id) ==> ({
                let g = *final(self);
                let s = old(self).sh(frames);
                let nf = s[s.len() - 2] as int;
                let n = s.last() as int;
                let l = istft_len(nf, hop as int, n);
                let num = g.arg(id, 0);
                let rd = g.arg(id, 1);
                let db = g.arg(rd, 0);
                let denr = g.arg(db, 0);
                let de = g.arg(denr, 0);
                let den = g.arg(de, 0);
                let time = g.arg(g.arg(g.arg(ola_last(g, num, nf), 0), 0), 0);
                let w2 = g.arg(ola_last(g, den, nf), 0);
                &&& g.node_is(id, Op::Mul, seq![num, rd])
                &&& g.node_is(rd, Op::Recip, seq![db])
                &&& g.opn(db) is Expand && g.srcs(db).len() == 1
                &&& g.opn(denr) is Reshape && g.srcs(denr) == seq![de]
                &&& g.node_is(de, Op::Add, seq![den, g.arg(de, 1)])
                &&& is_scalar_of(g, g.arg(de, 1), F32_EPS_1E8)
                &&& ola(g, num, time, true, s, s.len() - 2, hop as int, n, l, nf)
                &&& ola(g, den, w2, false, seq![n as usize], 0, hop as int, n, l, nf)
                &&& window matches Some(w) ==> g.node_is(w2, Op::Mul, seq![w, w])
                    && g.node_is(time, Op::Mul, seq![g.arg(time, 0), g.arg(time, 1)])
                    && g.opn(g.arg(time, 0)) is Real && g.opn(g.arg(time, 1)) is Expand
                &&& window is None ==> g.opn(time) is Real && g.opn(w2) is Const
            }),
    {
        let ghost g0 = *self;
        let sh = self.shape(frames);
        let r = sh.len();
        if r < 2 || hop == 0 {
            return Err(Error::new("istft", ErrorKind::Invalid));
        }
        let nf = sh[r - 2];
        let n_fft = sh[r - 1];
        assert((nf - 1) * hop + n_fft <= usize::MAX);
        let l = (nf - 1) * hop + n_fft;
        let rdt0 = istft_time_dtype(self.dtype(frames));
        match window {
            Some(w) => {
                if self.rank(w) != 1 || self.shape(w)[0] != n_fft || self.dtype(w) != rdt0 {
                    return Err(Error::new("istft", ErrorKind::Invalid));
                }
                assert(self.sh(w) =~= seq![n_fft]);
            },
            None => {
                if rdt0 != DType::F32 {
                    return Err(Error::new("istft", ErrorKind::DTypeClass(rdt0)));
                }
            },
        }
        let inv = ok_id(self.ifft(frames, r - 1));
        let time = ok_id(self.real_part(inv));
        let ghost rdt = self.dt(time);
        let (time, w2) = match window {
            Some(w) => {
                let mut wsh = ones_vec(r);
                wsh.set(r - 1, n_fft);
                assert(numel(wsh@) == n_fft) by {
                    let o = ones(r as nat);
                    assert(wsh@ =~= o.drop_last().push(n_fft));
                    assert(wsh@.drop_last() =~= o.drop_last());
                    crate::graph::shape::lemma_numel_ones((r - 1) as nat);
                    assert(o.drop_last() =~= Seq::new((r - 1) as nat, |i: int| 1usize));
                }
                proof {
                    if self.sh(w) == seq![n_fft] {
                        crate::graph::shape::lemma_numel_single(n_fft);
                    }
                }
                let wr = self.reshape(w, wsh)?;
                let tsh = self.shape(time);
                let wb = self.broadcast_to(wr, tsh);
                assert(wb is Ok) by {
                    assert(crate::graph::shape::left_pad_ones(self.sh(wr), sh@.len()) =~= self.sh(wr));
                }
                let wb = ok_id(wb);
                let t = self.mul(time, wb)?;
                let w2 = ok_id(self.mul(w, w));
                if self.rank(w) != 1 {
                    return Err(Error::new("pad", ErrorKind::Invalid));
                }
                proof {
                    assert(self.sh(w) =~= seq![self.sh(w)[0]]);
                    crate::graph::shape::lemma_numel_single(self.sh(w)[0]);
                }
                assert(self.sh(w) =~= seq![n_fft]);
                (t, w2)
            },
            None => {
                assert(n_fft * 4 <= usize::MAX) by (nonlinear_arith) requires n_fft * n_fft * 8 <= usize::MAX;
                let nv: Vec<usize> = vec![n_fft];
                let c = self.const_storage(f32_fill(n_fft, 0x3f80_0000), nv);
                (time, c)
            },
        };
        let ghost gt = *self;
        let num = self.overlap_add(time, hop, l);
        let ghost gn = *self;
        let den = self.window_envelope(w2, nf, hop, l);
        let ghost gd = *self;
        let eps = self.scalar(den, F32_EPS_1E8);
        let ghost ge = *self;
        let den0 = den;
        let den = ok_id(self.add(den, eps));
        let numsh = self.shape(num);
        let mut dsh = ones_vec(numsh.len());
        dsh.set(numsh.len() - 1, l);
        proof { crate::graph::shape::lemma_numel_single(l); }
        assert(numel(dsh@) == l) by {
            let o = ones(numsh@.len());
            assert(dsh@ =~= o.drop_last().push(l));
            assert(dsh@.drop_last() =~= o.drop_last());
            crate::graph::shape::lemma_numel_ones((numsh@.len() - 1) as nat);
            assert(o.drop_last() =~= Seq::new((numsh@.len() - 1) as nat, |i: int| 1usize));
        }
        let denr = ok_id(self.reshape(den, dsh));
        let denb = self.broadcast_to(denr, numsh);
        assert(denb is Ok) by {
            assert(crate::graph::shape::left_pad_ones(self.sh(denr), numsh@.len()) =~= self.sh(denr));
        }
        let denb = ok_id(denb);
        let res = self.div(num, denb);
        proof {
            lemma_ola_kept(gn, *self, num, time, true, sh@, (r - 2) as int, hop as int, n_fft as int, l as int, nf as int);
            lemma_ola_kept(gd, *self, den0, w2, false, gn.sh(w2), 0, hop as int, n_fft as int, l as int, nf as int);
            lemma_scalar_kept(ge, *self, eps, F32_EPS_1E8);
            assert(self.nodes@[time.0 as int] == gt.nodes@[time.0 as int]);
            assert(self.nodes@[w2.0 as int] == gt.nodes@[w2.0 as int]);
            assert(gt.sh(time) == sh@);
            assert(gn.sh(w2) =~= seq![n_fft]);
            if nf > 1 {
                assert(ola(*self, num, time, true, sh@, (r - 2) as int, hop as int, n_fft as int, l as int, nf as int));
            }
        }
        res
    }

    /// `n - 1` as a float of dtype F32, shaped `[n]`.
    fn span_f32(&mut self, n: usize) -> (id: NodeId)
        requires old(self).wf(), old(self).room(3), n >= 1,
        ensures
            final(self).wf(), final(self).grew(*old(self), 3),
            final(self).valid(id), final(self).sh(id) == seq![n], final(self).dt(id) == DType::F32,
            is_span_of(*final(self), id, n),
    {
        let one: Vec<usize> = vec![1];
        assert(one@ =~= seq![1usize]);
        let c0 = self.const_storage(storage_u64_i64((n - 1) as u64), one);
        let ghost g1 = *self;
        let c = self.cast(c0, DType::F32);
        let ghost g2 = *self;
        let nv: Vec<usize> = vec![n];
        assert(nv@ =~= seq![n]);
        let r = self.expand(c, nv);
        assert(r is Ok) by { assert(crate::graph::shape::expand_ok(seq![1usize], seq![n])); }
        proof {
            g1.lemma_node_kept(*self, c0);
            g2.lemma_node_kept(*self, c);
        }
        ok_id(r)
    }

    /// Generalized cosine window `w[k] = a0 - a1 cos(2 pi k/(n-1)) + a2 cos(4 pi k/(n-1)) - ...`
    /// of length `n` (F32), the coefficients given as f32 bit patterns.
    #[verifier::loop_isolation(false)]
    fn cosine_window(&mut self, n: usize, a: &[u32]) -> (id: NodeId)
        requires old(self).wf(), old(self).room(20 + 16 * a@.len()), a@.len() >= 1,
        ensures
            final(self).wf(), final(self).grew(*old(self), 20 + 16 * a@.len()),
            final(self).valid(id), final(self).sh(id) == seq![n],
            final(self).dt(id) == DType::F32,
    {
        let ghost g0 = *self;
        if n <= 1 {
            let sv: Vec<usize> = vec![n];
            assert(sv@ =~= seq![n]);
            return self.const_storage(f32_fill(n, 0x3f80_0000), sv);
        }
        let nv: Vec<usize> = vec![n];
        assert(nv@ =~= seq![n]);
        let k = self.iota(nv, 0, DType::F32);
        assert(k is Ok);
        let k = ok_id(k);
        let tau = self.scalar(k, crate::graph::ops::base::fft::F32_TAU);
        let tk = ok_id(self.mul(tau, k));
        let d = self.span_f32(n);
        let t = ok_id(self.div(tk, d));
        let mut w = self.scalar(t, a[0]);
        let mut i: usize = 1;
        while i < a.len()
            invariant
                1 <= i <= a@.len(), self.wf(), self.grew(g0, 20 + 16 * i as nat),
                self.valid(w), self.sh(w) == seq![n], self.dt(w) == DType::F32,
                self.valid(t), self.sh(t) == seq![n], self.dt(t) == DType::F32,
            decreases a@.len() - i,
        {
            let fi = self.const_storage(storage_u64_i64(i as u64), vec![1]);
            let fi = self.cast(fi, DType::F32);
            let fi = self.expand(fi, vec![n]);
            assert(fi is Ok) by { assert(crate::graph::shape::expand_ok(seq![1usize], seq![n])); }
            let fi = ok_id(fi);
            let arg = ok_id(self.mul(fi, t));
            let c = self.cos(arg);
            let coef = if i % 2 == 0 { a[i] } else { a[i] ^ 0x8000_0000 };
            let term = self.scalar(c, coef);
            let term = ok_id(self.mul(term, c));
            w = ok_id(self.add(w, term));
            i = i + 1;
        }
        w
    }

    /// Hann window `0.5 - 0.5 cos(2 pi k/(n-1))` (symmetric), length `n`, F32.
    pub fn hann_window(&mut self, n: usize) -> (id: NodeId)
        requires old(self).wf(), old(self).room(52),
        ensures
            final(self).wf(), final(self).grew(*old(self), 52),
            final(self).valid(id), final(self).sh(id) == seq![n],
            final(self).dt(id) == DType::F32,
    {
        let a: Vec<u32> = vec![0x3f00_0000, 0x3f00_0000];
        self.cosine_window(n, a.as_slice())
    }

    /// Hamming window `0.54 - 0.46 cos(2 pi k/(n-1))`, length `n`, F32.
    pub fn hamming_window(&mut self, n: usize) -> (id: NodeId)
        requires old(self).wf(), old(self).room(52),
        ensures
            final(self).wf(), final(self).grew(*old(self), 52),
            final(self).valid(id), final(self).sh(id) == seq![n],
            final(self).dt(id) == DType::F32,
    {
        let a: Vec<u32> = vec![0x3f0a_3d71, 0x3eeb_851f];
        self.cosine_window(n, a.as_slice())
    }

    /// Blackman window `0.42 - 0.5 cos(2 pi k/(n-1)) + 0.08 cos(4 pi k/(n-1))`, length `n`, F32.
    pub fn blackman_window(&mut self, n: usize) -> (id: NodeId)
        requires old(self).wf(), old(self).room(68),
        ensures
            final(self).wf(), final(self).grew(*old(self), 68),
            final(self).valid(id), final(self).sh(id) == seq![n],
            final(self).dt(id) == DType::F32,
    {
        let a: Vec<u32> = vec![0x3ed7_0a3d, 0x3f00_0000, 0x3da3_d70a];
        self.cosine_window(n, a.as_slice())
    }

    /// Bartlett (triangular) window `1 - |(k - h)/h|`, `h = (n-1)/2`, length `n`, F32.
    #[verifier::spinoff_prover]
    #[verifier::rlimit(40)]
    pub fn bartlett_window(&mut self, n: usize) -> (id: NodeId)
        requires old(self).wf(), old(self).room(20),
        ensures
            final(self).wf(), final(self).grew(*old(self), 20),
            final(self).valid(id), final(self).sh(id) == seq![n],
            final(self).dt(id) == DType::F32,
            is_bartlett_of(*final(self), id, n),
    {
        if n <= 1 {
            let sv: Vec<usize> = vec![n];
            assert(sv@ =~= seq![n]);
            return self.const_storage(f32_fill(n, F32_ONE), sv);
        }
        let nv: Vec<usize> = vec![n];
        assert(nv@ =~= seq![n]);
        let k = self.iota(nv, 0, DType::F32);
        assert(k is Ok);
        let k = ok_id(k);
        let ghost g1 = *self;
        let d = self.span_f32(n);
        let ghost g2 = *self;
        let two = self.scalar(d, F32_TWO);
        let ghost g3 = *self;
        let half = ok_id(self.div(d, two));
        let ghost g4 = *self;
        let km = ok_id(self.sub(k, half));
        let ghost g5 = *self;
        let q = ok_id(self.div(km, half));
        let ghost g6 = *self;
        let aq = self.abs(q);
        let ghost g7 = *self;
        let one = self.scalar(aq, F32_ONE);
        let ghost g8 = *self;
        let res = ok_id(self.sub(one, aq));
        proof {
            g1.lemma_node_kept(*self, k);
            let c = g2.arg(d, 0);
            g2.lemma_arg_kept(*self, d, 0);
            g2.lemma_arg_kept(*self, c, 0);
            lemma_scalar_kept(g3, *self, two, F32_TWO);
            g4.lemma_node_kept(*self, half);
            g4.lemma_arg_kept(*self, half, 1);
            g5.lemma_node_kept(*self, km);
            g5.lemma_arg_kept(*self, km, 1);
            g6.lemma_node_kept(*self, q);
            g6.lemma_arg_kept(*self, q, 1);
            g7.lemma_node_kept(*self, aq);
            g7.lemma_arg_kept(*self, aq, 1);
            lemma_scalar_kept(g8, *self, one, F32_ONE);
        }
        res
    }
}

} // verus!
