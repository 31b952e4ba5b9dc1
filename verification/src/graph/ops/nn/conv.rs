//! Convolution (1/2/3-D) as a sum over kernel offsets: each offset is one strided window of
//! the padded input contracted with the matching weight slice; the transposed convolution
//! dilates the input and runs a stride-1 convolution with the flipped, C/O-swapped weight.

use vstd::prelude::*;
use crate::error::Error;
use crate::graph::{Graph, NodeId, Op};
use crate::graph::infer::{ceil_div, dot_shape, free_upto};
use crate::graph::shape::{numel, is_perm};
use crate::graph::ops::base::slicing::{slice_ok, sliced, padded};
use crate::graph::ops::base::scalar::ok_id;
use crate::graph::ops::base::fft::lemma_free_one;
use crate::graph::ops::nn::pool::{pool_out, pooled, lemma_window, lemma_numel_prefix, lemma_numel_pos};

verus! {

/// The kernel dims of weight shape `w` (its axes after `[O, C]`), `d` of them.
pub open spec fn kernel_of(w: Seq<usize>, d: nat) -> Seq<usize> {
    w.subrange(2, 2 + d as int)
}

/// `s` with each spatial axis `i` padded by `p[i]` on both sides.
pub open spec fn conv_padded(s: Seq<usize>, p: Seq<usize>) -> Seq<usize> {
    Seq::new(s.len(), |j: int| if j >= 2 { (s[j] + 2 * p[j - 2]) as usize } else { s[j] })
}

/// The windows fit: nonzero kernel dims and strides, the padded axes within `usize`, and the
/// dilated kernel within each padded axis.
pub open spec fn conv_fits(x: Seq<usize>, w: Seq<usize>, stride: Seq<usize>, padding: Seq<usize>, dilation: Seq<usize>) -> bool {
    let d = stride.len();
    &&& padding.len() == d && dilation.len() == d
    &&& x.len() >= d + 2 && w.len() >= d + 2
    &&& numel(kernel_of(w, d)) <= usize::MAX
    &&& w[0] * x[1] <= usize::MAX
    &&& forall|i: int| 0 <= i < d ==> #[trigger] w[2 + i] >= 1 && stride[i] >= 1
        && x[2 + i] + 2 * padding[i] <= usize::MAX
        && dilation[i] * (w[2 + i] - 1) + 1 <= x[2 + i] + 2 * padding[i]
}

/// Output shape `[N, O, *out]` of a convolution.
pub open spec fn conv_shape(x: Seq<usize>, w: Seq<usize>, stride: Seq<usize>, padding: Seq<usize>, dilation: Seq<usize>) -> Seq<usize> {
    pooled(conv_padded(x, padding), kernel_of(w, stride.len()), stride, dilation).update(1, w[0])
}

/// The convolution is accepted: ranks `d + 2`, enough weight channels, one arithmetic dtype.
pub open spec fn conv_ok(g: Graph, x: NodeId, w: NodeId, d: nat) -> bool {
    &&& g.sh(x).len() == d + 2 && g.sh(w).len() == d + 2
    &&& g.sh(w)[1] >= g.sh(x)[1]
    &&& g.dt(x) == g.dt(w) && g.dt(x).spec_is_arith()
}

/// `[0, d + 1, 1, 2, .., d]`: moves the last of `d + 2` axes to position 1.
fn last_to_second(d: usize) -> (p: Vec<usize>)
    requires d + 2 <= usize::MAX,
    ensures p@ == Seq::new((d + 2) as nat, |k: int| if k == 0 { 0usize } else if k == 1 { (d + 1) as usize } else { (k - 1) as usize }),
{
    let mut p: Vec<usize> = vec![0, d + 1];
    let mut k: usize = 2;
    while k < d + 2
        invariant 2 <= k <= d + 2, d + 2 <= usize::MAX,
            p@ == Seq::new(k as nat, |j: int| if j == 0 { 0usize } else if j == 1 { (d + 1) as usize } else { (j - 1) as usize }),
        decreases d + 2 - k,
    {
        p.push(k - 1);
        k = k + 1;
        assert(p@ =~= Seq::new(k as nat, |j: int| if j == 0 { 0usize } else if j == 1 { (d + 1) as usize } else { (j - 1) as usize }));
    }
    p
}

/// Contracting axis 1 of a window `[N, C, *out]` with axis 1 of `[O, C]` gives `[N, *out, O]`.
proof fn lemma_conv_dot(win: Seq<usize>, o: usize, c: usize)
    requires 2 <= win.len() <= usize::MAX,
    ensures dot_shape(win, seq![o, c], seq![1usize], seq![1usize], Seq::empty(), Seq::empty())
        == seq![win[0]] + win.skip(2) + seq![o],
{
    lemma_free_one(1, win.len());
    lemma_free_one(1, 2);
    assert(free_upto(Seq::empty(), seq![1usize], 2) =~= seq![0usize]);
    let lf = free_upto(Seq::empty(), seq![1usize], win.len());
    assert(lf.map_values(|i: usize| win[i as int]) =~= seq![win[0]] + win.skip(2));
    assert(Seq::<usize>::empty().map_values(|i: usize| win[i as int]) =~= Seq::<usize>::empty());
    let out = dot_shape(win, seq![o, c], seq![1usize], seq![1usize], Seq::empty(), Seq::empty());
    assert(out =~= seq![win[0]] + win.skip(2) + seq![o]);
}

/// What is left of the flat kernel offset `off` once the axes from `i` on (the last axis
/// varying fastest) have taken their digits.
pub open spec fn off_rest(off: int, k: Seq<usize>, i: int) -> int
    decreases k.len() - i,
{
    if i >= k.len() { off } else { off_rest(off, k, i + 1) / (k[i] as int) }
}

/// The position on spatial axis `j` of the flat kernel offset `off` (row-major over `k`).
pub open spec fn kofs(off: int, k: Seq<usize>, j: int) -> int {
    off_rest(off, k, j + 1) % (k[j] as int)
}

/// The strided window of the padded input `[N, C, *padded]` that kernel offset `off` reads:
/// on spatial axis `j` it starts at `kofs * dilation` and takes one element per stride for each
/// output position.
pub open spec fn conv_window(xs: Seq<usize>, ws: Seq<usize>, stride: Seq<usize>, padding: Seq<usize>, dilation: Seq<usize>, off: int) -> Seq<(usize, usize, usize)> {
    let d = stride.len();
    let k = kernel_of(ws, d);
    let ps = conv_padded(xs, padding);
    seq![(0usize, xs[0], 1usize), (0usize, xs[1], 1usize)] + Seq::new(d, |j: int| {
        let st = kofs(off, k, j) * dilation[j];
        (st as usize, (st + (pool_out(ps, k, stride, dilation, j) - 1) * stride[j] + 1) as usize, stride[j])
    })
}

/// The slice of the weight `[O, C, *kernel]` at kernel offset `off`.
pub open spec fn conv_tap(xs: Seq<usize>, ws: Seq<usize>, d: nat, off: int) -> Seq<(usize, usize, usize)> {
    let k = kernel_of(ws, d);
    seq![(0usize, ws[0], 1usize), (0usize, xs[1], 1usize)]
        + Seq::new(d, |j: int| (kofs(off, k, j) as usize, (kofs(off, k, j) + 1) as usize, 1usize))
}

/// Node `t` of `g` is the term of kernel offset `off`: the window of the padded input `xp` at
/// that offset contracted over the channel axis with the weight `w` at that offset (reshaped to
/// `[O, C]`), the output channel axis moved to second place.
pub open spec fn is_conv_term(g: Graph, t: NodeId, xp: NodeId, w: NodeId, xs: Seq<usize>, ws: Seq<usize>,
    stride: Seq<usize>, padding: Seq<usize>, dilation: Seq<usize>, off: int) -> bool
{
    let dg = g.arg(t, 0);
    let win = g.arg(dg, 0);
    let wr = g.arg(dg, 1);
    let wsl = g.arg(wr, 0);
    &&& g.valid(t) && g.srcs(t) == seq![dg]
    &&& g.opn(t) matches Op::Permute { perm } && perm@ == Seq::new((stride.len() + 2) as nat,
        |q: int| if q == 0 { 0usize } else if q == 1 { (stride.len() + 1) as usize } else { (q - 1) as usize })
    &&& g.srcs(dg) == seq![win, wr]
    &&& g.opn(dg) matches Op::DotGeneral { lhs_contract, rhs_contract, lhs_batch, rhs_batch }
        && lhs_contract@ == seq![1usize] && rhs_contract@ == seq![1usize] && lhs_batch@.len() == 0 && rhs_batch@.len() == 0
    &&& g.srcs(win) == seq![xp]
    &&& g.opn(win) matches Op::Slice { ranges } && ranges@ == conv_window(xs, ws, stride, padding, dilation, off)
    &&& g.srcs(wr) == seq![wsl] && g.opn(wr) is Reshape
    &&& g.srcs(wsl) == seq![w]
    &&& g.opn(wsl) matches Op::Slice { ranges } && ranges@ == conv_tap(xs, ws, stride.len(), off)
}

/// A convolution term stays one as the graph grows.
pub proof fn lemma_conv_term_kept(g0: Graph, g1: Graph, t: NodeId, xp: NodeId, w: NodeId, xs: Seq<usize>, ws: Seq<usize>,
    stride: Seq<usize>, padding: Seq<usize>, dilation: Seq<usize>, off: int)
    requires g0.wf(), is_conv_term(g0, t, xp, w, xs, ws, stride, padding, dilation, off), g1.extends(g0),
    ensures is_conv_term(g1, t, xp, w, xs, ws, stride, padding, dilation, off),
{
    g0.lemma_node_kept(g1, t);
    g0.lemma_arg_kept(g1, t, 0);
    let dg = g0.arg(t, 0);
    g0.lemma_arg_kept(g1, dg, 0);
    g0.lemma_arg_kept(g1, dg, 1);
    g0.lemma_arg_kept(g1, g0.arg(dg, 1), 0);
}

/// Node `acc` of `g` sums the terms of the first `m` kernel offsets, in order: term 0, then
/// one `Add` per further offset.
pub open spec fn conv_sum(g: Graph, acc: NodeId, xp: NodeId, w: NodeId, xs: Seq<usize>, ws: Seq<usize>,
    stride: Seq<usize>, padding: Seq<usize>, dilation: Seq<usize>, m: nat) -> bool
    decreases m,
{
    if m <= 1 {
        m == 1 && is_conv_term(g, acc, xp, w, xs, ws, stride, padding, dilation, 0)
    } else {
        &&& g.node_is(acc, Op::Add, seq![g.arg(acc, 0), g.arg(acc, 1)])
        &&& is_conv_term(g, g.arg(acc, 1), xp, w, xs, ws, stride, padding, dilation, m - 1)
        &&& conv_sum(g, g.arg(acc, 0), xp, w, xs, ws, stride, padding, dilation, (m - 1) as nat)
    }
}

/// A convolution sum stays one as the graph grows.
pub proof fn lemma_conv_sum_kept(g0: Graph, g1: Graph, acc: NodeId, xp: NodeId, w: NodeId, xs: Seq<usize>, ws: Seq<usize>,
    stride: Seq<usize>, padding: Seq<usize>, dilation: Seq<usize>, m: nat)
    requires g0.wf(), conv_sum(g0, acc, xp, w, xs, ws, stride, padding, dilation, m), g1.extends(g0),
    ensures conv_sum(g1, acc, xp, w, xs, ws, stride, padding, dilation, m),
    decreases m,
{
    if m <= 1 {
        lemma_conv_term_kept(g0, g1, acc, xp, w, xs, ws, stride, padding, dilation, 0);
    } else {
        g0.lemma_node_kept(g1, acc);
        lemma_conv_term_kept(g0, g1, g0.arg(acc, 1), xp, w, xs, ws, stride, padding, dilation, m - 1);
        lemma_conv_sum_kept(g0, g1, g0.arg(acc, 0), xp, w, xs, ws, stride, padding, dilation, (m - 1) as nat);
    }
}

/// Node `id` of `g` is the convolution of `x` (shape `xs`) with `w` (shape `ws`): `x` padded,
/// and one term per kernel offset summed.
pub open spec fn conv_built(g: Graph, id: NodeId, x: NodeId, w: NodeId, xs: Seq<usize>, ws: Seq<usize>,
    stride: Seq<usize>, padding: Seq<usize>, dilation: Seq<usize>) -> bool
{
    exists|xp: NodeId| #[trigger] conv_padding_of(g, xp, x, padding)
        && conv_sum(g, id, xp, w, xs, ws, stride, padding, dilation, numel(kernel_of(ws, stride.len())) as nat)
}

/// The term of kernel offset `j` inside a sum `acc` of the first `m` offsets' terms.
pub open spec fn term_at(g: Graph, acc: NodeId, m: nat, j: int) -> NodeId
    decreases m,
{
    if m <= 1 { acc } else if j == m - 1 { g.arg(acc, 1) } else { term_at(g, g.arg(acc, 0), (m - 1) as nat, j) }
}

/// A convolution adds up one term for every kernel offset: the sum over the first `m`
/// offsets holds, for each `j < m`, the contraction of the input window at offset `j` with
/// the weight at offset `j` (no offset left out, none counted in place of another).
pub proof fn law_conv_sums_every_kernel_offset(g: Graph, acc: NodeId, xp: NodeId, w: NodeId, xs: Seq<usize>, ws: Seq<usize>,
    stride: Seq<usize>, padding: Seq<usize>, dilation: Seq<usize>, m: nat, j: int)
    requires conv_sum(g, acc, xp, w, xs, ws, stride, padding, dilation, m), 0 <= j < m,
    ensures is_conv_term(g, term_at(g, acc, m, j), xp, w, xs, ws, stride, padding, dilation, j),
    decreases m,
{
    if m > 1 && j != m - 1 {
        law_conv_sums_every_kernel_offset(g, g.arg(acc, 0), xp, w, xs, ws, stride, padding, dilation, (m - 1) as nat, j);
    }
}

/// Node `xp` of `g` is `x` zero-padded by `padding` on both sides of each spatial axis.
pub open spec fn conv_padding_of(g: Graph, xp: NodeId, x: NodeId, padding: Seq<usize>) -> bool {
    &&& g.srcs(xp) == seq![x]
    &&& g.opn(xp) matches Op::Pad { pads }
        && pads@ == seq![(0usize, 0usize), (0usize, 0usize)] + Seq::new(padding.len(), |j: int| (padding[j], padding[j]))
}

impl Graph {
    /// N-D convolution of `x` `[N, C, *spatial]` with `w` `[O, C, *kernel]`: stride, zero
    /// padding (both sides) and dilation per spatial axis; output `[N, O, *out]`.
    #[verifier::loop_isolation(false)]
    #[verifier::spinoff_prover]
    #[verifier::rlimit(100)]
    pub(crate) fn conv_nd(&mut self, x: NodeId, w: NodeId, stride: &[usize], padding: &[usize], dilation: &[usize])
        -> (r: Result<NodeId, Error>)
        requires
            old(self).wf(), old(self).valid(x), old(self).valid(w),
            conv_fits(old(self).sh(x), old(self).sh(w), stride@, padding@, dilation@),
            old(self).room(6 * numel(kernel_of(old(self).sh(w), stride@.len())) as nat + 1),
        ensures
            final(self).wf(), final(self).grew(*old(self), 6 * numel(kernel_of(old(self).sh(w), stride@.len())) as nat + 1),
            r is Ok <==> conv_ok(*old(self), x, w, stride@.len()),
            r matches Ok(id) ==> final(self).valid(id) && final(self).dt(id) == old(self).dt(x)
                && final(self).sh(id) == conv_shape(old(self).sh(x), old(self).sh(w), stride@, padding@, dilation@),
            r matches Ok(id) ==> conv_built(*final(self), id, x, w, old(self).sh(x), old(self).sh(w), stride@, padding@, dilation@),
    {
        let ghost g0 = *self;
        let d = stride.len();
        let ish = self.shape(x);
        let wsh = self.shape(w);
        let n = ish[0];
        let c = ish[1];
        let o = wsh[0];
        let mut kernel: Vec<usize> = Vec::new();
        let mut i: usize = 0;
        while i < d
            invariant i <= d, kernel@ == wsh@.subrange(2, 2 + i as int), 2 + d <= wsh@.len(), wsh@.len() == wsh.len(),
            decreases d - i,
        {
            assert(2 + i < wsh.len());
            kernel.push(wsh[2 + i]);
            i = i + 1;
            assert(kernel@ =~= wsh@.subrange(2, 2 + i as int));
        }
        let ghost k = kernel@;
        let mut pads: Vec<(usize, usize)> = vec![(0, 0), (0, 0)];
        let mut i: usize = 0;
        while i < d
            invariant i <= d, pads@.len() == 2 + i, pads@[0] == (0usize, 0usize), pads@[1] == (0usize, 0usize),
                forall|j: int| 0 <= j < i ==> #[trigger] pads@[2 + j] == (padding@[j], padding@[j]),
            decreases d - i,
        {
            pads.push((padding[i], padding[i]));
            i = i + 1;
        }
        let ghost pd = pads@;
        assert(crate::graph::ops::base::slicing::pad_fits(ish@, pd)) by {
            assert forall|j: int| 0 <= j < pd.len() && j < ish@.len() implies (#[trigger] pd[j]).0 + ish@[j] + pd[j].1 <= usize::MAX by {
                if j >= 2 {
                    assert(pd[2 + (j - 2)] == pd[j]);
                    assert(wsh@[2 + (j - 2)] >= 1);
                }
            }
        }
        let xp = self.pad(x, pads)?;
        proof {
            let tp = seq![(0usize, 0usize), (0usize, 0usize)] + Seq::new(padding@.len(), |j: int| (padding@[j], padding@[j]));
            assert(padding@.len() == d);
            assert forall|j: int| 0 <= j < pd.len() implies pd[j] == tp[j] by {
                if j >= 2 {
                    assert(pd[2 + (j - 2)] == (padding@[j - 2], padding@[j - 2]));
                }
            }
            assert(pd =~= tp);
        }
        let ghost ps = self.sh(xp);
        assert(ps =~= conv_padded(ish@, padding@)) by {
            assert forall|j: int| 0 <= j < ps.len() implies ps[j] == conv_padded(ish@, padding@)[j] by {
                if j >= 2 {
                    assert(pd[2 + (j - 2)] == pd[j]);
                }
            }
        }
        let mut out_sp: Vec<usize> = Vec::new();
        let mut i: usize = 0;
        while i < d
            invariant
                i <= d, out_sp@.len() == i, ps.len() == d + 2, k.len() == d,
                forall|j: int| 0 <= j < i ==> #[trigger] out_sp@[j] == pool_out(ps, k, stride@, dilation@, j),
            decreases d - i,
        {
            assert(wsh@[2 + i] >= 1 && k[i as int] == wsh@[2 + i]);
            proof { lemma_window(ps[2 + i] as int, k[i as int] as int, dilation@[i as int] as int, stride@[i as int] as int, 0); }
            let a = ish[2 + i];
            let b = padding[i];
            assert(a + 2 * b <= usize::MAX);
            let sz = a + 2 * b;
            assert(sz == ps[2 + i]);
            let ov = (sz - (dilation[i] * (kernel[i] - 1) + 1)) / stride[i] + 1;
            out_sp.push(ov);
            i = i + 1;
        }
        assert forall|j: int| 0 <= j < k.len() implies #[trigger] k[j] >= 1 by { assert(k[j] == wsh@[2 + j]); }
        let mut total: usize = 1;
        let mut i: usize = 0;
        while i < d
            invariant i <= d, k.len() == d, total == numel(k.take(i as int)), numel(k) <= usize::MAX,
                forall|j: int| 0 <= j < k.len() ==> #[trigger] k[j] >= 1,
            decreases d - i,
        {
            proof {
                assert(k.take(i + 1).drop_last() =~= k.take(i as int));
                lemma_numel_prefix(k, i + 1);
            }
            total = total * kernel[i];
            i = i + 1;
        }
        assert(k.take(d as int) =~= k);
        proof { lemma_numel_pos(k); }
        let ghost win_sh = pooled(ps, k, stride@, dilation@);
        let ghost want = win_sh.update(1, o);
        let mut acc: NodeId = x;
        let mut off: usize = 0;
        while off < total
            invariant
                off <= total, total == numel(k), total >= 1, k.len() == d,
                self.wf(), self.grew(g0, 1 + 6 * off as nat), self.valid(xp), self.sh(xp) == ps,
                self.dt(xp) == g0.dt(x),
                off >= 1 ==> self.valid(acc) && self.sh(acc) == want && self.dt(acc) == g0.dt(x)
                    && conv_ok(g0, x, w, d as nat),
                conv_padding_of(*self, xp, x, padding@),
                off >= 1 ==> conv_sum(*self, acc, xp, w, ish@, wsh@, stride@, padding@, dilation@, off as nat),
                k == kernel_of(wsh@, d as nat), ps == conv_padded(ish@, padding@),
            decreases total - off,
        {
            let ghost gl = *self;
            let mut ki: Vec<usize> = Vec::new();
            let mut i: usize = 0;
            while i < d
                invariant i <= d, ki@.len() == i, forall|j: int| 0 <= j < i ==> #[trigger] ki@[j] == 0,
                decreases d - i,
            {
                ki.push(0);
                i = i + 1;
            }
            let mut rem = off;
            let mut i: usize = d;
            while i > 0
                invariant i <= d, ki@.len() == d, forall|j: int| 0 <= j < d ==> #[trigger] ki@[j] < k[j],
                    rem == off_rest(off as int, k, i as int),
                    forall|j: int| i <= j < d ==> #[trigger] ki@[j] == kofs(off as int, k, j),
                decreases i,
            {
                i = i - 1;
                assert(k[i as int] >= 1);
                ki.set(i, rem % kernel[i]);
                rem = rem / kernel[i];
            }
            let mut ranges: Vec<(usize, usize, usize)> = vec![(0, n, 1), (0, c, 1)];
            let mut wranges: Vec<(usize, usize)> = vec![(0, o), (0, c)];
            let mut i: usize = 0;
            while i < d
                invariant
                    i <= d, ranges@.len() == 2 + i, wranges@.len() == 2 + i,
                    ranges@[0] == (0usize, n, 1usize), ranges@[1] == (0usize, c, 1usize),
                    wranges@[0] == (0usize, o), wranges@[1] == (0usize, c),
                    forall|j: int| 0 <= j < i ==> {
                        let rj = #[trigger] ranges@[2 + j];
                        &&& rj.2 == stride@[j] && rj.0 <= rj.1 <= ps[2 + j]
                        &&& ceil_div(rj.1 - rj.0, rj.2 as int) == pool_out(ps, k, stride@, dilation@, j)
                    },
                    forall|j: int| 0 <= j < i ==> {
                        let wj = #[trigger] wranges@[2 + j];
                        &&& wj.1 == wj.0 + 1 && wj.1 <= k[j]
                    },
                    forall|j: int| 0 <= j < i ==> #[trigger] ranges@[2 + j] == conv_window(ish@, wsh@, stride@, padding@, dilation@, off as int)[2 + j],
                    forall|j: int| 0 <= j < i ==> (#[trigger] wranges@[2 + j]).0 == kofs(off as int, k, j),
                decreases d - i,
            {
                let kk = ki[i];
                proof {
                    lemma_window(ps[2 + i] as int, k[i as int] as int, dilation@[i as int] as int, stride@[i as int] as int, kk as int);
                }
                let start = kk * dilation[i];
                let len = (out_sp[i] - 1) * stride[i] + 1;
                ranges.push((start, start + len, stride[i]));
                wranges.push((kk, kk + 1));
                i = i + 1;
            }
            let ghost rg = ranges@;
            proof {
                assert(sliced(rg) =~= win_sh) by {
                    assert forall|j: int| 0 <= j < rg.len() implies sliced(rg)[j] == win_sh[j] by {
                        if j >= 2 {
                            let rj = rg[2 + (j - 2)];
                        } else {
                            assert(ceil_div(rg[j].1 - rg[j].0, 1) == rg[j].1);
                        }
                    }
                }
            }
            assert(slice_ok(self.sh(xp), rg)) by {
                assert forall|j: int| 0 <= j < rg.len() implies (#[trigger] rg[j]).2 > 0 && rg[j].0 <= rg[j].1 <= ps[j] by {
                    if j >= 2 {
                        let jj = j - 2;
                        assert(rg[2 + jj] == rg[j]);
                        assert(k[jj] >= 1 && stride@[jj] >= 1);
                    }
                }
            }
            proof {
                assert(rg =~= conv_window(ish@, wsh@, stride@, padding@, dilation@, off as int));
            }
            let window = ok_id(self.slice_step(xp, ranges));
            let ghost gw = *self;
            let ghost wr = wranges@;
            proof {
                if conv_ok(g0, x, w, d as nat) {
                    assert forall|j: int| 0 <= j < wr.len() implies (#[trigger] wr[j]).0 <= wr[j].1 <= self.sh(w)[j] by {
                        if j >= 2 {
                            assert(wr[2 + (j - 2)] == wr[j]);
                            assert(k[j - 2] == wsh@[j]);
                        }
                    }
                }
            }
            let wsl = self.slice(w, wranges)?;
            let ghost gws = *self;
            let ghost wsl0 = wsl;
            proof {
                let tap = conv_tap(ish@, wsh@, d as nat, off as int);
                let mv = wr.map_values(|q: (usize, usize)| (q.0, q.1, 1usize));
                assert forall|j: int| 0 <= j < mv.len() implies mv[j] == tap[j] by {
                    if j >= 2 {
                        assert(wr[2 + (j - 2)].0 == kofs(off as int, k, j - 2));
                        assert(wr[2 + (j - 2)].1 == wr[2 + (j - 2)].0 + 1);
                    }
                }
                assert(mv =~= tap);
            }
            assert(self.sh(wsl) =~= seq![o, c] + Seq::new(d as nat, |j: int| 1usize)) by {
                assert forall|j: int| 0 <= j < self.sh(wsl).len() implies self.sh(wsl)[j] == (seq![o, c] + Seq::new(d as nat, |q: int| 1usize))[j] by {
                    if j >= 2 {
                        assert(wr[2 + (j - 2)] == wr[j]);
                    }
                }
            }
            proof {
                crate::graph::shape::lemma_numel_ones(d as nat);
                crate::graph::shape::lemma_numel_concat(seq![o, c], Seq::new(d as nat, |j: int| 1usize));
                crate::graph::shape::lemma_numel_concat(seq![o], seq![c]);
                assert(seq![o] + seq![c] =~= seq![o, c]);
                crate::graph::shape::lemma_numel_single(o);
                crate::graph::shape::lemma_numel_single(c);
            }
            let wv: Vec<usize> = vec![o, c];
            let wsl = ok_id(self.reshape(wsl, wv));
            let ghost gwr = *self;
            let lc: Vec<usize> = vec![1];
            let rc: Vec<usize> = vec![1];
            let lb: Vec<usize> = Vec::new();
            let rb: Vec<usize> = Vec::new();
            assert(lc@ =~= seq![1usize] && rc@ =~= seq![1usize] && lb@ =~= Seq::<usize>::empty() && rb@ =~= Seq::<usize>::empty());
            assert(self.sh(window) == win_sh && self.sh(wsl) == seq![o, c]);
            proof { lemma_conv_dot(win_sh, o, c); }
            let term = self.dot_general(window, wsl, lc, rc, lb, rb)?;
            let ghost gd = *self;
            let ghost dg = term;
            let perm = last_to_second(d);
            let ghost tsh = self.sh(term);
            proof {
                let p = perm@;
                assert(tsh =~= seq![win_sh[0]] + win_sh.skip(2) + seq![o]);
                assert(is_perm(p, tsh.len())) by {
                    assert forall|a: int, b: int| 0 <= a < p.len() && 0 <= b < p.len() && a != b implies p[a] != p[b] by {}
                }
                assert(p.map_values(|q: usize| tsh[q as int]) =~= want);
            }
            let term = self.permute(term, perm);
            let term = ok_id(term);
            let ghost gt = *self;
            let ghost pacc = acc;
            proof {
                gw.lemma_node_kept(*self, window);
                gws.lemma_node_kept(*self, wsl0);
                gwr.lemma_node_kept(*self, wsl);
                gd.lemma_node_kept(*self, dg);
                assert(is_conv_term(*self, term, xp, w, ish@, wsh@, stride@, padding@, dilation@, off as int));
                if off >= 1 {
                    lemma_conv_sum_kept(gl, *self, pacc, xp, w, ish@, wsh@, stride@, padding@, dilation@, off as nat);
                }
            }
            if off == 0 {
                acc = term;
            } else {
                acc = ok_id(self.add(acc, term));
            }
            proof {
                lemma_conv_term_kept(gt, *self, term, xp, w, ish@, wsh@, stride@, padding@, dilation@, off as int);
                if off >= 1 {
                    lemma_conv_sum_kept(gt, *self, pacc, xp, w, ish@, wsh@, stride@, padding@, dilation@, off as nat);
                }
                gl.lemma_node_kept(*self, xp);
                assert(conv_sum(*self, acc, xp, w, ish@, wsh@, stride@, padding@, dilation@, (off + 1) as nat));
            }
            off = off + 1;
        }
        proof {
            assert(conv_padding_of(*self, xp, x, padding@));
        }
        Ok(acc)
    }

    /// 1-D convolution, `input` `[N, C, L]`, `weight` `[O, C, K]` to `[N, O, Lo]`; `stride`, `padding` (both sides) and `dilation` per
    /// spatial axis.
    pub fn conv1d(&mut self, input: NodeId, weight: NodeId, stride: usize, padding: usize, dilation: usize)
        -> (r: Result<NodeId, Error>)
        requires
            old(self).wf(), old(self).valid(input), old(self).valid(weight),
            conv_fits(old(self).sh(input), old(self).sh(weight), seq![stride], seq![padding], seq![dilation]),
            old(self).room(6 * numel(kernel_of(old(self).sh(weight), 1)) as nat + 1),
        ensures
            final(self).wf(), final(self).grew(*old(self), 6 * numel(kernel_of(old(self).sh(weight), 1)) as nat + 1),
            r is Ok <==> conv_ok(*old(self), input, weight, 1),
            r matches Ok(id) ==> final(self).valid(id) && final(self).dt(id) == old(self).dt(input)
                && final(self).sh(id) == conv_shape(old(self).sh(input), old(self).sh(weight), seq![stride], seq![padding], seq![dilation]),
            r matches Ok(id) ==> conv_built(*final(self), id, input, weight, old(self).sh(input), old(self).sh(weight), seq![stride], seq![padding], seq![dilation]),
    {
        let sv: Vec<usize> = vec![stride];
        let pv: Vec<usize> = vec![padding];
        let dv: Vec<usize> = vec![dilation];
        assert(sv@ =~= seq![stride] && pv@ =~= seq![padding] && dv@ =~= seq![dilation]);
        self.conv_nd(input, weight, sv.as_slice(), pv.as_slice(), dv.as_slice())
    }

    /// 2-D convolution, `input` `[N, C, H, W]`, `weight` `[O, C, Kh, Kw]` to `[N, O, Ho, Wo]`; `stride`, `padding` (both sides) and `dilation` per
    /// spatial axis.
    pub fn conv2d(&mut self, input: NodeId, weight: NodeId, stride: (usize, usize), padding: (usize, usize), dilation: (usize, usize))
        -> (r: Result<NodeId, Error>)
        requires
            old(self).wf(), old(self).valid(input), old(self).valid(weight),
            conv_fits(old(self).sh(input), old(self).sh(weight), seq![stride.0, stride.1], seq![padding.0, padding.1], seq![dilation.0, dilation.1]),
            old(self).room(6 * numel(kernel_of(old(self).sh(weight), 2)) as nat + 1),
        ensures
            final(self).wf(), final(self).grew(*old(self), 6 * numel(kernel_of(old(self).sh(weight), 2)) as nat + 1),
            r is Ok <==> conv_ok(*old(self), input, weight, 2),
            r matches Ok(id) ==> final(self).valid(id) && final(self).dt(id) == old(self).dt(input)
                && final(self).sh(id) == conv_shape(old(self).sh(input), old(self).sh(weight), seq![stride.0, stride.1], seq![padding.0, padding.1], seq![dilation.0, dilation.1]),
            r matches Ok(id) ==> conv_built(*final(self), id, input, weight, old(self).sh(input), old(self).sh(weight), seq![stride.0, stride.1], seq![padding.0, padding.1], seq![dilation.0, dilation.1]),
    {
        let sv: Vec<usize> = vec![stride.0, stride.1];
        let pv: Vec<usize> = vec![padding.0, padding.1];
        let dv: Vec<usize> = vec![dilation.0, dilation.1];
        assert(sv@ =~= seq![stride.0, stride.1] && pv@ =~= seq![padding.0, padding.1] && dv@ =~= seq![dilation.0, dilation.1]);
        self.conv_nd(input, weight, sv.as_slice(), pv.as_slice(), dv.as_slice())
    }

    /// 3-D convolution, `input` `[N, C, D, H, W]`, `weight` `[O, C, Kd, Kh, Kw]` to `[N, O, Do, Ho, Wo]`; `stride`, `padding` (both sides) and `dilation` per
    /// spatial axis.
    pub fn conv3d(&mut self, input: NodeId, weight: NodeId, stride: (usize, usize, usize), padding: (usize, usize, usize), dilation: (usize, usize, usize))
        -> (r: Result<NodeId, Error>)
        requires
            old(self).wf(), old(self).valid(input), old(self).valid(weight),
            conv_fits(old(self).sh(input), old(self).sh(weight), seq![stride.0, stride.1, stride.2], seq![padding.0, padding.1, padding.2], seq![dilation.0, dilation.1, dilation.2]),
            old(self).room(6 * numel(kernel_of(old(self).sh(weight), 3)) as nat + 1),
        ensures
            final(self).wf(), final(self).grew(*old(self), 6 * numel(kernel_of(old(self).sh(weight), 3)) as nat + 1),
            r is Ok <==> conv_ok(*old(self), input, weight, 3),
            r matches Ok(id) ==> final(self).valid(id) && final(self).dt(id) == old(self).dt(input)
                && final(self).sh(id) == conv_shape(old(self).sh(input), old(self).sh(weight), seq![stride.0, stride.1, stride.2], seq![padding.0, padding.1, padding.2], seq![dilation.0, dilation.1, dilation.2]),
            r matches Ok(id) ==> conv_built(*final(self), id, input, weight, old(self).sh(input), old(self).sh(weight), seq![stride.0, stride.1, stride.2], seq![padding.0, padding.1, padding.2], seq![dilation.0, dilation.1, dilation.2]),
    {
        let sv: Vec<usize> = vec![stride.0, stride.1, stride.2];
        let pv: Vec<usize> = vec![padding.0, padding.1, padding.2];
        let dv: Vec<usize> = vec![dilation.0, dilation.1, dilation.2];
        assert(sv@ =~= seq![stride.0, stride.1, stride.2] && pv@ =~= seq![padding.0, padding.1, padding.2] && dv@ =~= seq![dilation.0, dilation.1, dilation.2]);
        self.conv_nd(input, weight, sv.as_slice(), pv.as_slice(), dv.as_slice())
    }
}

} // verus!
