//! Discrete Fourier transforms as a complex matmul with the DFT matrix. The matrix is built
//! in the graph: an exact integer table `(k * j) mod n` scaled by `2 pi / n` and passed
//! through `cos`/`sin`, so no float is computed while recording. Real input promotes to
//! complex (`F64` to `C128`, anything else to `C64`).

use vstd::prelude::*;
use crate::bytes::{le_u64, push_u64};
use crate::dtype::DType;
use crate::error::{Error, ErrorKind};
use crate::storage::Storage;
use crate::graph::{Graph, NodeId, Op};
use crate::graph::infer::{dot_shape, free_upto};
use crate::graph::shape::{ones_vec, swap_dims, swap_perm};
use crate::graph::ops::base::trig::{is_cos_of, lemma_cos_kept};
use crate::graph::ops::base::complex::complex_of;
use crate::graph::ops::base::scalar::ok_id;

verus! {

/// 2 pi as f32.
pub const F32_TAU: u32 = 0x40c9_0fdb;
/// 2 pi as f64.
pub const F64_TAU: u64 = 0x4019_21fb_5444_2d18;
/// Nodes a single transform may add.
pub const DFT_ROOM: u64 = 32;

/// The dtype a transform of a `d` tensor has.
pub open spec fn dft_dtype(d: DType) -> DType {
    if d.spec_is_complex() { d } else { complex_of(d) }
}

/// An `n x n` table of 8-byte entries fits in memory.
pub open spec fn dft_fits(n: usize) -> bool {
    n * n * 8 <= usize::MAX
}

/// Entry `t` (row-major) of the `n x n` DFT exponent table: `(k * j) mod n`.
pub open spec fn dft_index(n: nat, t: int) -> u64 {
    (((t / n as int) * (t % n as int)) % (n as int)) as u64
}

/// A one-element storage of dtype `d` (8 bytes wide) holding the bits `v`.
fn storage_u64(d: DType, v: u64) -> (s: Storage)
    requires d == DType::F64 || d == DType::I64,
    ensures s.spec_dtype() == d, s.spec_bytes() == le_u64(v), s.wf(),
{
    let mut b: Vec<u8> = Vec::new();
    push_u64(&mut b, v);
    assert(b@ =~= le_u64(v));
    Storage::new(d, b)
}

/// The `n x n` DFT exponent table as I64, row-major.
fn dft_index_table(n: usize) -> (s: Storage)
    requires dft_fits(n),
    ensures
        s.spec_dtype() == DType::I64, s.wf(), s.spec_bytes().len() == 8 * (n * n),
        forall|t: int| 0 <= t < n * n ==>
            #[trigger] s.spec_bytes().subrange(8 * t, 8 * t + 8) == le_u64(dft_index(n as nat, t)),
{
    let total = n * n;
    let mut b: Vec<u8> = Vec::new();
    let mut t: usize = 0;
    while t < total
        invariant
            total == n * n, dft_fits(n), t <= total, b@.len() == 8 * t,
            forall|u: int| 0 <= u < t ==> #[trigger] b@.subrange(8 * u, 8 * u + 8) == le_u64(dft_index(n as nat, u)),
        decreases total - t,
    {
        let k = t / n;
        let j = t % n;
        assert(k < n && j < n) by {
            vstd::arithmetic::div_mod::lemma_fundamental_div_mod(t as int, n as int);
            assert(k < n) by (nonlinear_arith) requires t == n * k + j, j >= 0, t < n * n, n > 0;
        }
        assert(k * j < n * n) by (nonlinear_arith) requires k < n, j < n;
        let v = ((k * j) % n) as u64;
        let ghost old_b = b@;
        push_u64(&mut b, v);
        assert forall|u: int| 0 <= u < t + 1 implies #[trigger] b@.subrange(8 * u, 8 * u + 8) == le_u64(dft_index(n as nat, u)) by {
            if u < t {
                assert(b@.subrange(8 * u, 8 * u + 8) =~= old_b.subrange(8 * u, 8 * u + 8));
            } else {
                assert(b@.subrange(8 * u, 8 * u + 8) =~= le_u64(v));
            }
        }
        t = t + 1;
    }
    assert(b@.len() % 8 == 0);
    Storage::new(DType::I64, b)
}

/// `free_upto` with no batch axes and one contract axis `c`: the axes below `k` but `c`.
pub proof fn lemma_free_one(c: usize, k: nat)
    requires k <= usize::MAX + 1,
    ensures free_upto(Seq::empty(), seq![c], k)
        == Seq::new(if k <= c { k } else { (k - 1) as nat }, |i: int| if i < c { i as usize } else { (i + 1) as usize }),
    decreases k,
{
    if k > 0 {
        lemma_free_one(c, (k - 1) as nat);
        let a = (k - 1) as usize;
        assert(!crate::graph::infer::contains_usize(Seq::<usize>::empty(), a));
        if a == c {
            assert(seq![c][0] == c);
            assert(crate::graph::infer::contains_usize(seq![c], c));
        } else {
            assert(!crate::graph::infer::contains_usize(seq![c], a)) by {
                assert(seq![c][0] == c);
            }
        }
        let f = |i: int| if i < c { i as usize } else { (i + 1) as usize };
        let want = Seq::new(if k <= c { k } else { (k - 1) as nat }, f);
        let prev = Seq::new(if k - 1 <= c { (k - 1) as nat } else { (k - 2) as nat }, f);
        if a == c {
            assert(prev =~= want);
        } else {
            assert(prev.push(a) =~= want);
        }
    }
}

/// Contracting the last axis of `s` with axis 0 of an `[n, n]` matrix keeps `s` when the
/// last axis has size `n`.
pub proof fn lemma_dft_shape(s: Seq<usize>, n: usize)
    requires 1 <= s.len() <= usize::MAX, s[s.len() - 1] == n,
    ensures dot_shape(s, seq![n, n], seq![(s.len() - 1) as usize], seq![0usize], Seq::empty(), Seq::empty()) == s,
{
    let last = (s.len() - 1) as usize;
    lemma_free_one(last, s.len());
    lemma_free_one(0, 2);
    let lf = free_upto(Seq::empty(), seq![last], s.len());
    let rf = free_upto(Seq::empty(), seq![0usize], 2);
    assert(rf =~= seq![1usize]);
    let out = dot_shape(s, seq![n, n], seq![last], seq![0usize], Seq::empty(), Seq::empty());
    assert(Seq::<usize>::empty().map_values(|i: usize| s[i as int]) =~= Seq::<usize>::empty());
    assert(out =~= s);
}

/// Node `id` of `g` is the DFT matrix in direction `inverse`: `complex(cos t, sin t)` with
/// `t = -theta` (forward) or `t = theta` with both parts divided by the count (inverse),
/// `theta` the product of the index table and `2 pi / n`.
pub open spec fn is_twiddles(g: Graph, id: NodeId, inverse: bool) -> bool {
    let re = g.arg(id, 0);
    let im = g.arg(id, 1);
    let c = if inverse { g.arg(re, 0) } else { re };
    let sn = if inverse { g.arg(im, 0) } else { im };
    let t = g.arg(sn, 0);
    &&& g.node_is(id, Op::Complex, seq![re, im])
    &&& g.node_is(sn, Op::Sin, seq![t])
    &&& is_cos_of(g, c, t)
    &&& inverse ==> g.node_is(re, Op::Mul, seq![c, g.arg(re, 1)]) && g.opn(g.arg(re, 1)) == Op::Recip
        && g.node_is(im, Op::Mul, seq![sn, g.arg(im, 1)]) && g.opn(g.arg(im, 1)) == Op::Recip
        && g.node_is(t, Op::Mul, seq![g.arg(t, 0), g.arg(t, 1)])
    &&& !inverse ==> g.node_is(t, Op::Neg, seq![g.arg(t, 0)])
        && g.node_is(g.arg(t, 0), Op::Mul, seq![g.arg(g.arg(t, 0), 0), g.arg(g.arg(t, 0), 1)])
}

/// A DFT matrix stays one as the graph grows.
pub proof fn lemma_twiddles_kept(g0: Graph, g1: Graph, id: NodeId, inverse: bool)
    requires g0.wf(), is_twiddles(g0, id, inverse), g1.extends(g0),
    ensures is_twiddles(g1, id, inverse),
{
    let re = g0.arg(id, 0);
    let im = g0.arg(id, 1);
    let c = if inverse { g0.arg(re, 0) } else { re };
    let sn = if inverse { g0.arg(im, 0) } else { im };
    let t = g0.arg(sn, 0);
    g0.lemma_arg_kept(g1, id, 0);
    g0.lemma_arg_kept(g1, id, 1);
    g0.lemma_arg_kept(g1, sn, 0);
    if inverse {
        g0.lemma_arg_kept(g1, re, 0);
        g0.lemma_arg_kept(g1, re, 1);
        g0.lemma_arg_kept(g1, im, 0);
        g0.lemma_arg_kept(g1, im, 1);
    } else {
        g0.lemma_arg_kept(g1, t, 0);
    }
    lemma_cos_kept(g0, g1, c, t);
}

/// Node `id` of `g` is the DFT of `x` along `axis` (rank `r`) in direction `inverse`: the
/// complex operand (moved so `axis` is last) contracted on its last axis with the DFT
/// matrix, then moved back.
pub open spec fn is_dft_of(g: Graph, id: NodeId, x: NodeId, axis: usize, r: nat, inverse: bool) -> bool {
    let last = (r - 1) as usize;
    let d = if axis == last { id } else { g.arg(id, 0) };
    let xt = g.arg(d, 0);
    let xc = if axis == last { xt } else { g.arg(xt, 0) };
    &&& g.srcs(d) == seq![xt, g.arg(d, 1)]
    &&& (g.opn(d) matches Op::DotGeneral { lhs_contract, rhs_contract, lhs_batch, rhs_batch }
        && lhs_contract@ == seq![last] && rhs_contract@ == seq![0usize] && lhs_batch@.len() == 0 && rhs_batch@.len() == 0)
    &&& is_twiddles(g, g.arg(d, 1), inverse)
    &&& axis != last ==> g.srcs(id) == seq![d] && (g.opn(id) matches Op::Permute { perm } && perm@ == swap_perm(r, axis as int, last as int))
        && g.srcs(xt) == seq![xc] && (g.opn(xt) matches Op::Permute { perm } && perm@ == swap_perm(r, axis as int, last as int))
    &&& xc == x || (g.opn(xc) is Cast && g.srcs(xc) == seq![x])
}

/// A DFT node stays one as the graph grows.
pub proof fn lemma_dft_kept(g0: Graph, g1: Graph, id: NodeId, x: NodeId, axis: usize, r: nat, inverse: bool)
    requires g0.wf(), g0.valid(id), is_dft_of(g0, id, x, axis, r, inverse), g1.extends(g0), r >= 1,
    ensures is_dft_of(g1, id, x, axis, r, inverse),
{
    let last = (r - 1) as usize;
    g0.lemma_node_kept(g1, id);
    let d = if axis == last { id } else { g0.arg(id, 0) };
    if axis != last {
        g0.lemma_arg_kept(g1, id, 0);
    }
    g0.lemma_arg_kept(g1, d, 0);
    g0.lemma_arg_kept(g1, d, 1);
    g0.lemma_arg_valid(d, 1);
    lemma_twiddles_kept(g0, g1, g0.arg(d, 1), inverse);
    let xt = g0.arg(d, 0);
    if axis != last {
        g0.lemma_arg_kept(g1, xt, 0);
    }
    let xc = if axis == last { xt } else { g0.arg(xt, 0) };
    g0.lemma_node_kept(g1, xc);
}

impl Graph {
    /// 2 pi broadcast like `like` (F32 or F64), at the precision of `like`'s dtype.
    fn tau_like(&mut self, like: NodeId) -> (id: NodeId)
        requires
            old(self).wf(), old(self).room(3), old(self).valid(like),
            old(self).dt(like) == DType::F32 || old(self).dt(like) == DType::F64,
        ensures
            final(self).wf(), final(self).grew(*old(self), 3),
            final(self).valid(id), final(self).sh(id) == old(self).sh(like), final(self).dt(id) == old(self).dt(like),
    {
        if self.dtype(like) == DType::F64 {
            let shape = self.shape(like);
            let c = self.const_storage(storage_u64(DType::F64, F64_TAU), ones_vec(shape.len()));
            proof { crate::graph::ops::base::scalar::lemma_expand_ones(shape@); }
            ok_id(self.expand(c, shape))
        } else {
            self.scalar(like, F32_TAU)
        }
    }

    /// The `[n, n]` DFT matrix `e^(-/+ 2 pi i kj/n)` (times `1/n` for the inverse) with parts
    /// of dtype `rdt`.
    #[verifier::spinoff_prover]
    #[verifier::rlimit(40)]
    fn twiddles(&mut self, n: usize, inverse: bool, rdt: DType) -> (id: NodeId)
        requires
            old(self).wf(), old(self).room(24), dft_fits(n), rdt == DType::F32 || rdt == DType::F64,
        ensures
            final(self).wf(), final(self).grew(*old(self), 24),
            final(self).valid(id), final(self).sh(id) == seq![n, n], final(self).dt(id) == complex_of(rdt),
            is_twiddles(*final(self), id, inverse),
    {
        let idx = self.const_storage(dft_index_table(n), vec![n, n]);
        let m = self.cast(idx, rdt);
        let tau = self.tau_like(m);
        let cnt = self.const_storage(storage_u64(DType::I64, n as u64), vec![1, 1]);
        let cnt = self.cast(cnt, rdt);
        let cnt = ok_id(self.expand(cnt, vec![n, n]));
        let step = ok_id(self.div(tau, cnt));
        let theta = ok_id(self.mul(m, step));
        let theta = if inverse { theta } else { self.neg(theta) };
        let re = self.cos(theta);
        let ghost g1 = *self;
        let im = self.sin(theta);
        let re2 = if inverse { ok_id(self.div(re, cnt)) } else { re };
        let im2 = if inverse { ok_id(self.div(im, cnt)) } else { im };
        let res = ok_id(self.complex(re2, im2));
        proof { lemma_cos_kept(g1, *self, re, theta); }
        res
    }

    /// DFT of `x` along `axis` (inverse: `1/n` scaled, positive exponent).
    #[verifier::spinoff_prover]
    #[verifier::rlimit(40)]
    fn dft(&mut self, x: NodeId, axis: usize, inverse: bool) -> (r: Result<NodeId, Error>)
        requires
            old(self).wf(), old(self).room(DFT_ROOM as nat), old(self).valid(x),
            axis < old(self).sh(x).len() ==> dft_fits(old(self).sh(x)[axis as int]),
        ensures
            final(self).wf(), final(self).grew(*old(self), DFT_ROOM as nat),
            r is Ok <==> axis < old(self).sh(x).len(),
            r matches Ok(id) ==> final(self).valid(id) && final(self).sh(id) == old(self).sh(x)
                && final(self).dt(id) == dft_dtype(old(self).dt(x)),
            r matches Ok(id) ==> is_dft_of(*final(self), id, x, axis, old(self).sh(x).len(), inverse),
    {
        let ghost s0 = self.sh(x);
        let dt = self.dtype(x);
        let x = if dt.is_complex() {
            x
        } else if dt == DType::F64 {
            self.cast(x, DType::C128)
        } else {
            self.cast(x, DType::C64)
        };
        let cdt = self.dtype(x);
        let sh = self.shape(x);
        if axis >= sh.len() {
            return Err(Error::new("fft", ErrorKind::AxisOutOfRange { axis, rank: sh.len() }));
        }
        let n = sh[axis];
        let rdt = cdt.to_real();
        let w = self.twiddles(n, inverse, rdt);
        let ghost gt = *self;
        let last = sh.len() - 1;
        let xt = if axis == last { x } else { ok_id(self.transpose(x, axis, last)) };
        let ghost st = self.sh(xt);
        assert(st[last as int] == n);
        proof { lemma_dft_shape(st, n); }
        let lc: Vec<usize> = vec![last];
        let rc: Vec<usize> = vec![0];
        let lb: Vec<usize> = Vec::new();
        let rb: Vec<usize> = Vec::new();
        assert(lc@ =~= seq![last] && rc@ =~= seq![0usize] && lb@ =~= Seq::<usize>::empty() && rb@ =~= Seq::<usize>::empty());
        assert(self.sh(w) == seq![n, n] && self.sh(xt) == st);
        let out = ok_id(self.dot_general(xt, w, lc, rc, lb, rb));
        proof { lemma_twiddles_kept(gt, *self, w, inverse); }
        assert(self.sh(out) == st);
        if axis == last {
            Ok(out)
        } else {
            let ghost go = *self;
            let back = ok_id(self.transpose(out, axis, last));
            assert(swap_dims(swap_dims(s0, axis as int, last as int), axis as int, last as int) =~= s0);
            proof { lemma_twiddles_kept(go, *self, w, inverse); }
            Ok(back)
        }
    }

    /// 1-D DFT along `axis`: `X[j] = sum_k x[k] e^(-2 pi i kj/n)`; real input promotes to
    /// complex.
    pub fn fft(&mut self, x: NodeId, axis: usize) -> (r: Result<NodeId, Error>)
        requires
            old(self).wf(), old(self).room(DFT_ROOM as nat), old(self).valid(x),
            axis < old(self).sh(x).len() ==> dft_fits(old(self).sh(x)[axis as int]),
        ensures
            final(self).wf(), final(self).grew(*old(self), DFT_ROOM as nat),
            r is Ok <==> axis < old(self).sh(x).len(),
            r matches Ok(id) ==> final(self).valid(id) && final(self).sh(id) == old(self).sh(x)
                && final(self).dt(id) == dft_dtype(old(self).dt(x)),
            r matches Ok(id) ==> is_dft_of(*final(self), id, x, axis, old(self).sh(x).len(), false),
    {
        self.dft(x, axis, false)
    }

    /// Inverse 1-D DFT along `axis`: `x[k] = (1/n) sum_j X[j] e^(2 pi i kj/n)`.
    pub fn ifft(&mut self, x: NodeId, axis: usize) -> (r: Result<NodeId, Error>)
        requires
            old(self).wf(), old(self).room(DFT_ROOM as nat), old(self).valid(x),
            axis < old(self).sh(x).len() ==> dft_fits(old(self).sh(x)[axis as int]),
        ensures
            final(self).wf(), final(self).grew(*old(self), DFT_ROOM as nat),
            r is Ok <==> axis < old(self).sh(x).len(),
            r matches Ok(id) ==> final(self).valid(id) && final(self).sh(id) == old(self).sh(x)
                && final(self).dt(id) == dft_dtype(old(self).dt(x)),
            r matches Ok(id) ==> is_dft_of(*final(self), id, x, axis, old(self).sh(x).len(), true),
    {
        self.dft(x, axis, true)
    }
}

} // verus!
