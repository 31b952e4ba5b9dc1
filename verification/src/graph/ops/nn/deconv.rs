//! Transposed (fractionally strided) convolution in one to three spatial dimensions: the
//! input dilated by the stride, then a stride-1 convolution with the channel-swapped,
//! spatially flipped weight, padded by `dilation (K - 1) - padding` on each side plus
//! `output_padding` on the high side.

use vstd::prelude::*;
use crate::error::Error;
use crate::graph::{Graph, NodeId};
use crate::graph::shape::{numel, is_perm, lemma_numel_scale};
use crate::graph::ops::base::scalar::ok_id;
use crate::graph::ops::base::signal::{axis_ranges, axis_pads};
use crate::graph::ops::base::slicing::{pad_fits, padded, axes_ok};
use crate::graph::ops::nn::pool::pool_out;
use crate::graph::ops::nn::conv::{conv_padded, conv_fits, conv_shape, kernel_of};

verus! {

/// An axis of length `l` after inserting `f - 1` zeros between elements.
pub open spec fn dil_dim(l: usize, f: usize) -> usize {
    if f <= 1 { l } else { ((l - 1) * f + 1) as usize }
}

/// `s` with spatial axes `2 .. 2 + i` dilated by `stride`.
pub open spec fn dilated_upto(s: Seq<usize>, stride: Seq<usize>, i: int) -> Seq<usize> {
    Seq::new(s.len(), |j: int| if 2 <= j < 2 + i { dil_dim(s[j], stride[j - 2]) } else { s[j] })
}

/// The weight `[C, O, K..]` with its channel axes swapped: `[O, C, K..]`.
pub open spec fn ct_weight(w: Seq<usize>) -> Seq<usize> {
    seq![w[1], w[0]] + w.skip(2)
}

/// The padding of spatial axis `i` on each side: `dilation (K - 1) - padding`.
pub open spec fn ct_pad(w: Seq<usize>, padding: Seq<usize>, dilation: Seq<usize>, i: int) -> int {
    dilation[i] * (w[2 + i] - 1) - padding[i]
}

/// The padding list of the dilated input.
pub open spec fn ct_pads(w: Seq<usize>, padding: Seq<usize>, output_padding: Seq<usize>, dilation: Seq<usize>) -> Seq<(usize, usize)> {
    seq![(0usize, 0usize), (0usize, 0usize)] + Seq::new(padding.len(), |i: int|
        (ct_pad(w, padding, dilation, i) as usize, (ct_pad(w, padding, dilation, i) + output_padding[i]) as usize))
}

/// The input of the stride-1 convolution.
pub open spec fn ct_input(x: Seq<usize>, w: Seq<usize>, stride: Seq<usize>, padding: Seq<usize>,
    output_padding: Seq<usize>, dilation: Seq<usize>) -> Seq<usize>
{
    padded(dilated_upto(x, stride, stride.len() as int), ct_pads(w, padding, output_padding, dilation))
}

/// What the decomposition computes without overflow: each dilation of the input fits, and
/// the paddings are defined.
pub open spec fn ct_fits(x: Seq<usize>, w: Seq<usize>, stride: Seq<usize>, padding: Seq<usize>,
    output_padding: Seq<usize>, dilation: Seq<usize>) -> bool
{
    let d = stride.len();
    &&& 1 <= d <= 3 && padding.len() == d && output_padding.len() == d && dilation.len() == d
    &&& w.len() >= d + 2
    &&& numel(x) <= usize::MAX
    &&& forall|i: int| 0 <= i < d ==> #[trigger] w[2 + i] >= 1
        && dilation[i] * (w[2 + i] - 1) <= usize::MAX
        && padding[i] <= dilation[i] * (w[2 + i] - 1)
        && ct_pad(w, padding, dilation, i) + output_padding[i] <= usize::MAX
    &&& forall|i: int| 0 <= i < d && #[trigger] stride[i] > 1 ==> x.len() > 2 + i && x.len() < usize::MAX && x[2 + i] >= 1
        && x[2 + i] * stride[i] <= usize::MAX
        && numel(dilated_upto(x, stride, i)) * stride[i] <= usize::MAX
    &&& x.len() == d + 2 && w.len() == d + 2 ==> {
        &&& pad_fits(dilated_upto(x, stride, d as int), ct_pads(w, padding, output_padding, dilation))
        &&& conv_fits(ct_input(x, w, stride, padding, output_padding, dilation), ct_weight(w),
            Seq::new(d, |i: int| 1usize), Seq::new(d, |i: int| 0usize), dilation)
    }
}

/// The nodes the decomposition may add.
pub open spec fn ct_room(w: Seq<usize>, d: nat) -> nat {
    (4 * d + 3 + 6 * numel(kernel_of(ct_weight(w), d)) + 1) as nat
}

/// The documented output size of a transposed convolution: the batch axis is kept, the
/// channel axis is the weight's output count, and spatial axis `i` (stride at least one) has
/// `(L - 1) stride - 2 padding + dilation (K - 1) + output_padding + 1` elements.
pub proof fn lemma_conv_transpose_size(x: Seq<usize>, w: Seq<usize>, stride: Seq<usize>, padding: Seq<usize>,
    output_padding: Seq<usize>, dilation: Seq<usize>)
    requires
        ct_fits(x, w, stride, padding, output_padding, dilation),
        x.len() == stride.len() + 2, w.len() == stride.len() + 2,
        forall|i: int| 0 <= i < stride.len() ==> #[trigger] stride[i] >= 1,
    ensures ({
        let d = stride.len();
        let o = conv_shape(ct_input(x, w, stride, padding, output_padding, dilation), ct_weight(w),
            Seq::new(d, |i: int| 1usize), Seq::new(d, |i: int| 0usize), dilation);
        &&& o.len() == d + 2 && o[0] == x[0] && o[1] == w[1]
        &&& forall|i: int| 0 <= i < d ==> #[trigger] o[2 + i] == (x[2 + i] - 1) * stride[i] - 2 * padding[i]
            + dilation[i] * (w[2 + i] - 1) + output_padding[i] + 1
    }),
{
    let d = stride.len();
    let ones = Seq::new(d, |i: int| 1usize);
    let zeros = Seq::new(d, |i: int| 0usize);
    let xi = ct_input(x, w, stride, padding, output_padding, dilation);
    let wt = ct_weight(w);
    let xp = conv_padded(xi, zeros);
    let k = kernel_of(wt, d);
    let o = conv_shape(xi, wt, ones, zeros, dilation);
    assert forall|i: int| 0 <= i < d implies #[trigger] o[2 + i] == (x[2 + i] - 1) * stride[i] - 2 * padding[i]
        + dilation[i] * (w[2 + i] - 1) + output_padding[i] + 1 by
    {
        assert(k[i] == w[2 + i]);
        assert(wt[2 + i] == w[2 + i]);
        let cp = ct_pad(w, padding, dilation, i);
        let ld = dil_dim(x[2 + i], stride[i]);
        assert(ld == (x[2 + i] - 1) * stride[i] + 1) by {
            let l = x[2 + i];
            let f = stride[i];
            if f > 1 {
                assert(l >= 1 && l * f <= usize::MAX);
                assert((l - 1) * f + 1 <= l * f) by (nonlinear_arith) requires l >= 1, f >= 1;
                assert((l - 1) * f + 1 >= 0) by (nonlinear_arith) requires l >= 1, f >= 1;
            } else {
                assert(f == 1);
                assert((l - 1) * f + 1 == l) by (nonlinear_arith) requires f == 1;
            }
        }
        assert(dilated_upto(x, stride, d as int)[2 + i] == ld);
        assert(ct_pads(w, padding, output_padding, dilation)[2 + i] == (cp as usize, (cp + output_padding[i]) as usize));
        assert(xi[2 + i] == cp + ld + cp + output_padding[i]);
        assert(xp[2 + i] == xi[2 + i]);
        assert(pool_out(xp, k, ones, dilation, i) == xp[2 + i] - (dilation[i] * (k[i] - 1) + 1) + 1);
        assert(dilation[i] * (k[i] - 1) + 1 <= xp[2 + i]);
    }
}

impl Graph {
    /// Transposed convolution over `d = stride.len()` spatial axes: `input` `[N, C, ..]`,
    /// `weight` `[C, O, K..]`, output `[N, O, ..]` with each spatial size
    /// `(L - 1) stride - 2 padding + dilation (K - 1) + output_padding + 1`.
    #[verifier::spinoff_prover]
    #[verifier::rlimit(80)]
    #[verifier::loop_isolation(false)]
    fn conv_transpose_nd(&mut self, input: NodeId, weight: NodeId, stride: &[usize], padding: &[usize],
        output_padding: &[usize], dilation: &[usize]) -> (r: Result<NodeId, Error>)
        requires
            old(self).wf(), old(self).valid(input), old(self).valid(weight),
            ct_fits(old(self).sh(input), old(self).sh(weight), stride@, padding@, output_padding@, dilation@),
            old(self).room(ct_room(old(self).sh(weight), stride@.len())),
        ensures
            final(self).wf(), final(self).grew(*old(self), ct_room(old(self).sh(weight), stride@.len())),
            r is Ok <==> old(self).sh(input).len() == stride@.len() + 2 && old(self).sh(weight).len() == stride@.len() + 2
                && old(self).sh(weight)[0] >= old(self).sh(input)[1]
                && old(self).dt(input) == old(self).dt(weight) && old(self).dt(input).spec_is_arith(),
            r matches Ok(id) ==> final(self).valid(id) && final(self).dt(id) == old(self).dt(input)
                && final(self).sh(id) == conv_shape(
                    ct_input(old(self).sh(input), old(self).sh(weight), stride@, padding@, output_padding@, dilation@),
                    ct_weight(old(self).sh(weight)), Seq::new(stride@.len(), |i: int| 1usize),
                    Seq::new(stride@.len(), |i: int| 0usize), dilation@),
    {
        let ghost g0 = *self;
        let ghost sx = self.sh(input);
        let ghost sw = self.sh(weight);
        let d = stride.len();
        proof { crate::graph::shape::lemma_numel_nonneg(kernel_of(ct_weight(sw), d as nat)); }
        let wsh = self.shape(weight);
        let mut xd = input;
        let mut i: usize = 0;
        while i < d
            invariant
                i <= d, self.wf(), self.grew(g0, (4 * i) as nat),
                self.valid(xd) && self.dt(xd) == g0.dt(input) && self.sh(xd) == dilated_upto(sx, stride@, i as int),
                self.valid(weight) && self.sh(weight) == sw && self.dt(weight) == g0.dt(weight),
                ct_fits(sx, sw, stride@, padding@, output_padding@, dilation@),
            decreases d - i,
        {
            let ghost cur = self.sh(xd);
            proof {
                assert(cur.len() == sx.len());
                if stride@[i as int] > 1 {
                    assert(sx.len() > 2 + i && sx[2 + i as int] >= 1);
                    assert(cur[2 + i as int] == sx[2 + i as int]);
                    crate::graph::shape::lemma_numel_nonneg(cur);
                    assert(numel(cur) <= numel(cur) * stride@[i as int]) by (nonlinear_arith)
                        requires numel(cur) >= 0, stride@[i as int] >= 1;
                }
            }
            xd = ok_id(self.dilate_axis(xd, 2 + i, stride[i]));
            proof {
                assert(self.sh(xd) =~= dilated_upto(sx, stride@, i + 1));
            }
            i = i + 1;
        }
        let mut perm: Vec<usize> = vec![1, 0];
        let mut k: usize = 2;
        while k < d + 2
            invariant 2 <= k <= d + 2, d <= 3, perm@.len() == k, perm@[0] == 1, perm@[1] == 0,
                forall|j: int| 2 <= j < k ==> #[trigger] perm@[j] == j,
            decreases d + 2 - k,
        {
            perm.push(k);
            k = k + 1;
        }
        let ghost pm = perm@;
        proof {
            if sw.len() == d + 2 {
                assert forall|a: int, b: int| 0 <= a < pm.len() && 0 <= b < pm.len() && a != b implies pm[a] != pm[b] by {
                    if a >= 2 && b >= 2 { assert(pm[a] == a && pm[b] == b); }
                    else if a >= 2 { assert(pm[a] == a); }
                    else if b >= 2 { assert(pm[b] == b); }
                }
                assert forall|a: int| 0 <= a < pm.len() implies #[trigger] pm[a] < sw.len() by {
                    if a >= 2 { assert(pm[a] == a); }
                }
                assert(is_perm(pm, sw.len()));
            }
        }
        let wt = self.permute(weight, perm)?;
        proof {
            assert(self.sh(wt) =~= ct_weight(sw)) by {
                assert forall|a: int| 0 <= a < sw.len() implies #[trigger] self.sh(wt)[a] == ct_weight(sw)[a] by {
                    if a >= 2 { assert(pm[a] == a); }
                }
            }
        }
        let mut axes: Vec<usize> = Vec::new();
        let mut j: usize = 0;
        while j < d
            invariant j <= d, d <= 3, axes@.len() == j, forall|t: int| 0 <= t < j ==> #[trigger] axes@[t] == t + 2,
            decreases d - j,
        {
            axes.push(j + 2);
            j = j + 1;
        }
        proof {
            assert(axes_ok(axes@, (d + 2) as nat)) by {
                assert forall|a: int, b: int| 0 <= a < axes@.len() && 0 <= b < axes@.len() && a != b
                    implies axes@[a] != axes@[b] by {}
            }
        }
        let wt = ok_id(self.flip(wt, axes));
        if self.rank(xd) != d + 2 {
            return Err(Error::new("pad", crate::error::ErrorKind::Invalid));
        }
        let ghost xds = self.sh(xd);
        let mut pads: Vec<(usize, usize)> = vec![(0, 0), (0, 0)];
        let mut q: usize = 0;
        while q < d
            invariant
                q <= d, d <= 3, pads@.len() == q + 2,
                forall|t: int| 0 <= t < q + 2 ==> #[trigger] pads@[t] == ct_pads(sw, padding@, output_padding@, dilation@)[t],
            decreases d - q,
        {
            let kq = wsh[2 + q];
            let cp = dilation[q] * (kq - 1) - padding[q];
            pads.push((cp, cp + output_padding[q]));
            q = q + 1;
        }
        assert(pads@ =~= ct_pads(sw, padding@, output_padding@, dilation@));
        let xp = ok_id(self.pad(xd, pads));
        let ones: Vec<usize> = vec![1; d];
        let zeros: Vec<usize> = vec![0; d];
        assert(ones@ =~= Seq::new(d as nat, |i: int| 1usize));
        assert(zeros@ =~= Seq::new(d as nat, |i: int| 0usize));
        self.conv_nd(xp, wt, ones.as_slice(), zeros.as_slice(), dilation)
    }

    /// Insert `factor - 1` zeros after each element along `axis` (length `k` becomes
    /// `(k - 1) factor + 1`); unchanged for `factor <= 1`.
    #[verifier::spinoff_prover]
    #[verifier::rlimit(40)]
    fn dilate_axis(&mut self, x: NodeId, axis: usize, factor: usize) -> (r: Result<NodeId, Error>)
        requires
            old(self).wf(), old(self).room(4), old(self).valid(x),
            factor > 1 ==> axis < old(self).sh(x).len() && old(self).sh(x).len() < usize::MAX
                && old(self).sh(x)[axis as int] >= 1
                && numel(old(self).sh(x)) <= usize::MAX
                && numel(old(self).sh(x)) * factor <= usize::MAX
                && old(self).sh(x)[axis as int] * factor <= usize::MAX,
        ensures
            final(self).wf(), final(self).grew(*old(self), 4),
            r is Ok,
            r matches Ok(id) ==> final(self).valid(id) && final(self).dt(id) == old(self).dt(x)
                && final(self).sh(id) == (if factor <= 1 { old(self).sh(x) }
                    else { old(self).sh(x).update(axis as int, dil_dim(old(self).sh(x)[axis as int], factor)) }),
    {
        if factor <= 1 {
            return Ok(x);
        }
        let sh = self.shape(x);
        let ghost s = sh@;
        let k = sh[axis];
        let mut s1 = crate::graph::op::copy_vec(&sh);
        s1.insert(axis + 1, 1);
        proof { crate::graph::shape::lemma_numel_insert_one(s, axis + 1); }
        let r1 = ok_id(self.reshape(x, s1));
        let ghost t1 = s.insert(axis + 1, 1usize);
        let pads = axis_pads(sh.len() + 1, axis + 1, 0, factor - 1);
        assert(pad_fits(t1, pads@));
        let p = ok_id(self.pad(r1, pads));
        let ghost tp = self.sh(p);
        proof {
            assert(tp =~= t1.update(axis + 1, factor));
            assert(t1[axis + 1] == 1);
            lemma_numel_scale(t1, axis + 1, factor);
            assert(t1.update(axis + 1, (t1[axis + 1] * factor) as usize) =~= tp);
        }
        let mut s2 = crate::graph::op::copy_vec(&sh);
        s2.set(axis, k * factor);
        proof {
            assert(s[axis as int] * factor <= usize::MAX);
            lemma_numel_scale(s, axis as int, factor);
            assert(s.update(axis as int, (s[axis as int] * factor) as usize) =~= s2@);
        }
        let m = ok_id(self.reshape(p, s2));
        assert((k - 1) * factor + 1 <= k * factor) by (nonlinear_arith) requires factor >= 1, k >= 1;
        let want = (k - 1) * factor + 1;
        let msh = self.shape(m);
        let ranges = axis_ranges(&msh, axis, 0, want);
        proof {
            assert forall|d: int| 0 <= d < ranges@.len() implies (#[trigger] ranges@[d]).0 <= ranges@[d].1 <= msh@[d] by {}
        }
        let res = ok_id(self.slice(m, ranges));
        assert(self.sh(res) =~= s.update(axis as int, dil_dim(k, factor)));
        Ok(res)
    }

    /// 1-D transposed convolution: `input` `[N, C, L]`, `weight` `[C, O, K]` to `[N, O, Lo]`.
    pub fn conv_transpose1d(&mut self, input: NodeId, weight: NodeId, stride: usize, padding: usize,
        output_padding: usize, dilation: usize) -> (r: Result<NodeId, Error>)
        requires
            old(self).wf(), old(self).valid(input), old(self).valid(weight),
            ct_fits(old(self).sh(input), old(self).sh(weight), seq![stride], seq![padding],
                seq![output_padding], seq![dilation]),
            old(self).room(ct_room(old(self).sh(weight), 1)),
        ensures
            final(self).wf(), final(self).grew(*old(self), ct_room(old(self).sh(weight), 1)),
            r is Ok <==> old(self).sh(input).len() == 3 && old(self).sh(weight).len() == 3
                && old(self).sh(weight)[0] >= old(self).sh(input)[1]
                && old(self).dt(input) == old(self).dt(weight) && old(self).dt(input).spec_is_arith(),
            r matches Ok(id) ==> final(self).valid(id) && final(self).dt(id) == old(self).dt(input)
                && final(self).sh(id) == conv_shape(
                    ct_input(old(self).sh(input), old(self).sh(weight), seq![stride], seq![padding],
                        seq![output_padding], seq![dilation]),
                    ct_weight(old(self).sh(weight)), Seq::new(1, |i: int| 1usize), Seq::new(1, |i: int| 0usize),
                    seq![dilation]),
    {
        let sv: Vec<usize> = vec![stride];
        let pv: Vec<usize> = vec![padding];
        let ov: Vec<usize> = vec![output_padding];
        let dv: Vec<usize> = vec![dilation];
        assert(sv@ =~= seq![stride] && pv@ =~= seq![padding]);
        assert(ov@ =~= seq![output_padding] && dv@ =~= seq![dilation]);
        self.conv_transpose_nd(input, weight, sv.as_slice(), pv.as_slice(), ov.as_slice(), dv.as_slice())
    }

    /// 2-D transposed convolution: `input` `[N, C, H, W]`, `weight` `[C, O, Kh, Kw]` to `[N, O, Ho, Wo]`, `Ho = (H - 1) s - 2 p + d (Kh - 1) + output_padding + 1`.
    pub fn conv_transpose2d(&mut self, input: NodeId, weight: NodeId, stride: (usize, usize), padding: (usize, usize),
        output_padding: (usize, usize), dilation: (usize, usize)) -> (r: Result<NodeId, Error>)
        requires
            old(self).wf(), old(self).valid(input), old(self).valid(weight),
            ct_fits(old(self).sh(input), old(self).sh(weight), seq![stride.0, stride.1], seq![padding.0, padding.1],
                seq![output_padding.0, output_padding.1], seq![dilation.0, dilation.1]),
            old(self).room(ct_room(old(self).sh(weight), 2)),
        ensures
            final(self).wf(), final(self).grew(*old(self), ct_room(old(self).sh(weight), 2)),
            r is Ok <==> old(self).sh(input).len() == 4 && old(self).sh(weight).len() == 4
                && old(self).sh(weight)[0] >= old(self).sh(input)[1]
                && old(self).dt(input) == old(self).dt(weight) && old(self).dt(input).spec_is_arith(),
            r matches Ok(id) ==> final(self).valid(id) && final(self).dt(id) == old(self).dt(input)
                && final(self).sh(id) == conv_shape(
                    ct_input(old(self).sh(input), old(self).sh(weight), seq![stride.0, stride.1], seq![padding.0, padding.1],
                        seq![output_padding.0, output_padding.1], seq![dilation.0, dilation.1]),
                    ct_weight(old(self).sh(weight)), Seq::new(2, |i: int| 1usize), Seq::new(2, |i: int| 0usize),
                    seq![dilation.0, dilation.1]),
    {
        let sv: Vec<usize> = vec![stride.0, stride.1];
        let pv: Vec<usize> = vec![padding.0, padding.1];
        let ov: Vec<usize> = vec![output_padding.0, output_padding.1];
        let dv: Vec<usize> = vec![dilation.0, dilation.1];
        assert(sv@ =~= seq![stride.0, stride.1] && pv@ =~= seq![padding.0, padding.1]);
        assert(ov@ =~= seq![output_padding.0, output_padding.1] && dv@ =~= seq![dilation.0, dilation.1]);
        self.conv_transpose_nd(input, weight, sv.as_slice(), pv.as_slice(), ov.as_slice(), dv.as_slice())
    }

    /// 3-D transposed convolution: `input` `[N, C, D, H, W]`, `weight` `[C, O, Kd, Kh, Kw]` to `[N, O, Do, Ho, Wo]`.
    pub fn conv_transpose3d(&mut self, input: NodeId, weight: NodeId, stride: (usize, usize, usize), padding: (usize, usize, usize),
        output_padding: (usize, usize, usize), dilation: (usize, usize, usize)) -> (r: Result<NodeId, Error>)
        requires
            old(self).wf(), old(self).valid(input), old(self).valid(weight),
            ct_fits(old(self).sh(input), old(self).sh(weight), seq![stride.0, stride.1, stride.2], seq![padding.0, padding.1, padding.2],
                seq![output_padding.0, output_padding.1, output_padding.2], seq![dilation.0, dilation.1, dilation.2]),
            old(self).room(ct_room(old(self).sh(weight), 3)),
        ensures
            final(self).wf(), final(self).grew(*old(self), ct_room(old(self).sh(weight), 3)),
            r is Ok <==> old(self).sh(input).len() == 5 && old(self).sh(weight).len() == 5
                && old(self).sh(weight)[0] >= old(self).sh(input)[1]
                && old(self).dt(input) == old(self).dt(weight) && old(self).dt(input).spec_is_arith(),
            r matches Ok(id) ==> final(self).valid(id) && final(self).dt(id) == old(self).dt(input)
                && final(self).sh(id) == conv_shape(
                    ct_input(old(self).sh(input), old(self).sh(weight), seq![stride.0, stride.1, stride.2], seq![padding.0, padding.1, padding.2],
                        seq![output_padding.0, output_padding.1, output_padding.2], seq![dilation.0, dilation.1, dilation.2]),
                    ct_weight(old(self).sh(weight)), Seq::new(3, |i: int| 1usize), Seq::new(3, |i: int| 0usize),
                    seq![dilation.0, dilation.1, dilation.2]),
    {
        let sv: Vec<usize> = vec![stride.0, stride.1, stride.2];
        let pv: Vec<usize> = vec![padding.0, padding.1, padding.2];
        let ov: Vec<usize> = vec![output_padding.0, output_padding.1, output_padding.2];
        let dv: Vec<usize> = vec![dilation.0, dilation.1, dilation.2];
        assert(sv@ =~= seq![stride.0, stride.1, stride.2] && pv@ =~= seq![padding.0, padding.1, padding.2]);
        assert(ov@ =~= seq![output_padding.0, output_padding.1, output_padding.2] && dv@ =~= seq![dilation.0, dilation.1, dilation.2]);
        self.conv_transpose_nd(input, weight, sv.as_slice(), pv.as_slice(), ov.as_slice(), dv.as_slice())
    }
}

} // verus!
