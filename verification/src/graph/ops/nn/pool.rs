//! Sliding-window pooling as a sum of strided slices: one slice per kernel offset,
//! combined elementwise by max, min or add (avg scales the sum by 1/window size).

use vstd::prelude::*;
use crate::dtype::DType;
use crate::error::{Error, ErrorKind};
use crate::graph::{Graph, NodeId, Op};
use crate::graph::infer::ceil_div;
use crate::graph::shape::numel;
use crate::graph::f32bits::{recip_count_bits, f32_positive_normal, nearest_recip};
use crate::graph::ops::base::slicing::{slice_ok, sliced};
use crate::graph::ops::base::scalar::{ok_id, is_scalar_of, lemma_scalar_kept};
use crate::text::str_eq;

verus! {

/// How the windows of a pool combine.
#[derive(Clone, Copy, PartialEq, Eq, Structural, Debug)]
pub enum PoolMode {
    Max,
    Min,
    Sum,
    Avg,
}

/// The window ranks agree: `x` is `[N, C, *spatial]` with one kernel, stride and dilation
/// entry per spatial axis.
pub open spec fn pool_ranks_ok(s: Seq<usize>, kernel: Seq<usize>, stride: Seq<usize>, dilation: Seq<usize>) -> bool {
    s.len() == kernel.len() + 2 && stride.len() == kernel.len() && dilation.len() == kernel.len()
}

/// Every window fits: nonzero kernel and stride, and the dilated kernel within the axis.
pub open spec fn pool_fits(s: Seq<usize>, kernel: Seq<usize>, stride: Seq<usize>, dilation: Seq<usize>) -> bool {
    &&& numel(kernel) <= usize::MAX
    &&& forall|i: int| 0 <= i < kernel.len() ==> #[trigger] kernel[i] >= 1 && stride[i] >= 1
        && dilation[i] * (kernel[i] - 1) + 1 <= s[2 + i]
}

/// Output size of spatial axis `i`.
pub open spec fn pool_out(s: Seq<usize>, kernel: Seq<usize>, stride: Seq<usize>, dilation: Seq<usize>, i: int) -> int {
    (s[2 + i] - (dilation[i] * (kernel[i] - 1) + 1)) / (stride[i] as int) + 1
}

/// Output shape: `[N, C]` then each spatial axis's window count.
pub open spec fn pooled(s: Seq<usize>, kernel: Seq<usize>, stride: Seq<usize>, dilation: Seq<usize>) -> Seq<usize> {
    seq![s[0], s[1]] + Seq::new(kernel.len(), |i: int| pool_out(s, kernel, stride, dilation, i) as usize)
}

/// The dtype supports combining windows by `mode` (when there is more than one window) and
/// the averaging scale.
pub open spec fn pool_dtype_ok(mode: PoolMode, d: DType, windows: int) -> bool {
    &&& windows >= 2 ==> match mode {
        PoolMode::Max => d.spec_is_numeric(),
        PoolMode::Min => !d.spec_is_complex(),
        _ => d.spec_is_arith(),
    }
    &&& mode == PoolMode::Avg ==> d.spec_is_arith()
}

/// Node `id` of `g` combines `a` and `b` as `mode` does: `max`, `min` (`where(a < b, a, b)`)
/// or a sum.
pub open spec fn combines(g: Graph, id: NodeId, a: NodeId, b: NodeId, mode: PoolMode) -> bool {
    match mode {
        PoolMode::Max => g.node_is(id, Op::Max, seq![a, b]),
        PoolMode::Min => g.node_is(id, Op::Where, seq![g.arg(id, 0), a, b]) && g.node_is(g.arg(id, 0), Op::CmpLt, seq![a, b]),
        _ => g.node_is(id, Op::Add, seq![a, b]),
    }
}

/// The earlier and the newer operand of a combining node for `mode`.
pub open spec fn fold_prev(g: Graph, id: NodeId, mode: PoolMode) -> NodeId {
    if mode == PoolMode::Min { g.arg(id, 1) } else { g.arg(id, 0) }
}

pub open spec fn fold_win(g: Graph, id: NodeId, mode: PoolMode) -> NodeId {
    if mode == PoolMode::Min { g.arg(id, 2) } else { g.arg(id, 1) }
}

/// Node `id` of `g` folds `k` windows (strided slices) of `x` together, first to last, by `mode`.
pub open spec fn pool_fold(g: Graph, id: NodeId, x: NodeId, mode: PoolMode, k: nat) -> bool
    decreases k,
{
    if k <= 1 {
        k == 1 && g.valid(id) && g.opn(id) is Slice && g.srcs(id) == seq![x]
    } else {
        let prev = fold_prev(g, id, mode);
        let win = fold_win(g, id, mode);
        &&& combines(g, id, prev, win, mode)
        &&& g.opn(win) is Slice && g.srcs(win) == seq![x]
        &&& pool_fold(g, prev, x, mode, (k - 1) as nat)
    }
}

/// A fold of windows stays one as the graph grows.
pub proof fn lemma_pool_fold_kept(g0: Graph, g1: Graph, id: NodeId, x: NodeId, mode: PoolMode, k: nat)
    requires g0.wf(), pool_fold(g0, id, x, mode, k), g1.extends(g0),
    ensures pool_fold(g1, id, x, mode, k),
    decreases k,
{
    if k <= 1 {
        assert(g1.nodes@[id.0 as int] == g0.nodes@[id.0 as int]);
    } else {
        g0.lemma_arg_kept(g1, id, 0);
        g0.lemma_arg_kept(g1, id, 1);
        if mode == PoolMode::Min {
            g0.lemma_arg_kept(g1, id, 2);
        }
        lemma_pool_fold_kept(g0, g1, fold_prev(g0, id, mode), x, mode, (k - 1) as nat);
    }
}

/// Node `id` of `g` pools `k` windows of `x` by `mode`: folded together (see `pool_fold`),
/// and for `Avg` scaled by the f32 reciprocal of `k`.
pub open spec fn pooled_by(g: Graph, id: NodeId, x: NodeId, mode: PoolMode, k: nat) -> bool {
    &&& mode != PoolMode::Avg ==> pool_fold(g, id, x, mode, k)
    &&& mode == PoolMode::Avg ==> g.node_is(id, Op::Mul, seq![g.arg(id, 0), g.arg(id, 1)])
        && pool_fold(g, g.arg(id, 0), x, mode, k)
        && exists|b: u32| #[trigger] is_scalar_of(g, g.arg(id, 1), b) && f32_positive_normal(b)
            && (k < 0x100_0000 ==> nearest_recip(b, k as int))
}

pub proof fn lemma_window(sz: int, k: int, dil: int, st: int, ki: int)
    requires 1 <= k, 1 <= st, 0 <= dil, 0 <= ki < k, dil * (k - 1) + 1 <= sz,
    ensures ({
        let o = (sz - (dil * (k - 1) + 1)) / st + 1;
        &&& o >= 1
        &&& ki * dil + (o - 1) * st + 1 <= sz
        &&& ceil_div((o - 1) * st + 1, st) == o
        &&& ki * dil >= 0
    }),
{
    let a = sz - (dil * (k - 1) + 1);
    let q = a / st;
    vstd::arithmetic::div_mod::lemma_fundamental_div_mod(a, st);
    assert(q >= 0) by {
        vstd::arithmetic::div_mod::lemma_div_pos_is_pos(a, st);
    }
    assert(q * st <= a) by (nonlinear_arith) requires a == st * q + a % st, a % st >= 0;
    assert(ki * dil <= (k - 1) * dil) by (nonlinear_arith) requires ki <= k - 1, dil >= 0;
    assert(ki * dil >= 0) by (nonlinear_arith) requires ki >= 0, dil >= 0;
    assert((q + 1 - 1) * st + 1 + st - 1 == (q + 1) * st) by (nonlinear_arith);
    vstd::arithmetic::div_mod::lemma_div_multiples_vanish(q + 1, st);
    assert((q + 1) * st == st * (q + 1)) by (nonlinear_arith);
}

impl Graph {
    /// Pool `x` ([N, C, *spatial]) with the given window, stride and dilation.
    #[verifier::loop_isolation(false)]
    #[verifier::spinoff_prover]
    #[verifier::rlimit(40)]
    fn pool_nd(&mut self, x: NodeId, kernel: &[usize], stride: &[usize], dilation: &[usize], mode: PoolMode)
        -> (r: Result<NodeId, Error>)
        requires
            old(self).wf(), old(self).valid(x),
            old(self).room(3 * numel(kernel@) as nat + 4),
            pool_ranks_ok(old(self).sh(x), kernel@, stride@, dilation@)
                ==> pool_fits(old(self).sh(x), kernel@, stride@, dilation@),
        ensures
            final(self).wf(), final(self).grew(*old(self), 3 * numel(kernel@) as nat + 4),
            r is Ok <==> pool_ranks_ok(old(self).sh(x), kernel@, stride@, dilation@)
                && pool_dtype_ok(mode, old(self).dt(x), numel(kernel@)),
            r matches Ok(id) ==> final(self).valid(id)
                && final(self).sh(id) == pooled(old(self).sh(x), kernel@, stride@, dilation@)
                && final(self).dt(id) == old(self).dt(x),
            r matches Ok(id) ==> pooled_by(*final(self), id, x, mode, numel(kernel@) as nat),
    {
        let ghost g0 = *self;
        let sh = self.shape(x);
        let d = kernel.len();
        if sh.len() < 2 || sh.len() - 2 != d || stride.len() != d || dilation.len() != d {
            return Err(Error::new("pool", ErrorKind::Invalid));
        }
        let ghost s = sh@;
        let n = sh[0];
        let c = sh[1];
        let mut out_sp: Vec<usize> = Vec::new();
        let mut i: usize = 0;
        while i < d
            invariant
                i <= d, out_sp@.len() == i,
                forall|j: int| 0 <= j < i ==> #[trigger] out_sp@[j] == pool_out(s, kernel@, stride@, dilation@, j),
            decreases d - i,
        {
            assert(kernel@[i as int] >= 1);
            proof { lemma_window(s[2 + i] as int, kernel@[i as int] as int, dilation@[i as int] as int, stride@[i as int] as int, 0); }
            let o = (sh[2 + i] - (dilation[i] * (kernel[i] - 1) + 1)) / stride[i] + 1;
            out_sp.push(o);
            i = i + 1;
        }
        let mut total: usize = 1;
        let mut i: usize = 0;
        while i < d
            invariant i <= d, total == numel(kernel@.take(i as int)),
            decreases d - i,
        {
            proof {
                assert(kernel@.take(i + 1).drop_last() =~= kernel@.take(i as int));
                crate::graph::shape::lemma_numel_grows(kernel@, i as int);
                lemma_numel_prefix(kernel@, i + 1);
            }
            total = total * kernel[i];
            i = i + 1;
        }
        assert(kernel@.take(d as int) =~= kernel@);
        proof { lemma_numel_pos(kernel@); }
        let ghost want = pooled(s, kernel@, stride@, dilation@);
        let mut acc: NodeId = x;
        let mut off: usize = 0;
        while off < total
            invariant
                off <= total, total == numel(kernel@), total >= 1,
                self.wf(), self.grew(g0, 3 * off as nat),
                off >= 1 ==> self.valid(acc) && self.sh(acc) == want && self.dt(acc) == g0.dt(x),
                off >= 2 ==> pool_dtype_ok(mode, g0.dt(x), 2),
                off >= 1 ==> pool_fold(*self, acc, x, mode, off as nat),
            decreases total - off,
        {
            let mut ki: Vec<usize> = Vec::new();
            let mut i: usize = 0;
            while i < d
                invariant i <= d, ki@.len() == i, forall|j: int| 0 <= j < i ==> #[trigger] ki@[j] == 0,
                decreases d - i,
            {
                ki.push(0);
                i = i + 1;
            }
            let mut o = off;
            let mut i: usize = d;
            while i > 0
                invariant
                    i <= d, ki@.len() == d,
                    forall|j: int| 0 <= j < d ==> #[trigger] ki@[j] < kernel@[j],
                decreases i,
            {
                i = i - 1;
                assert(kernel@[i as int] >= 1);
                ki.set(i, o % kernel[i]);
                o = o / kernel[i];
            }
            let mut ranges: Vec<(usize, usize, usize)> = vec![(0, n, 1), (0, c, 1)];
            let mut i: usize = 0;
            while i < d
                invariant
                    i <= d, ranges@.len() == 2 + i,
                    ranges@[0] == (0usize, n, 1usize), ranges@[1] == (0usize, c, 1usize),
                    forall|j: int| 0 <= j < i ==> {
                        let rj = #[trigger] ranges@[2 + j];
                        &&& rj.2 == stride@[j] && rj.0 <= rj.1 <= s[2 + j]
                        &&& ceil_div(rj.1 - rj.0, rj.2 as int) == pool_out(s, kernel@, stride@, dilation@, j)
                    },
                decreases d - i,
            {
                let k = kernel[i];
                let kk = ki[i];
                proof {
                    lemma_window(s[2 + i] as int, k as int, dilation@[i as int] as int, stride@[i as int] as int, kk as int);
                }
                let start = kk * dilation[i];
                let len = (out_sp[i] - 1) * stride[i] + 1;
                ranges.push((start, start + len, stride[i]));
                i = i + 1;
            }
            let ghost rg = ranges@;
            proof {
                assert(sliced(rg) =~= want) by {
                    assert forall|j: int| 0 <= j < rg.len() implies sliced(rg)[j] == want[j] by {
                        if j >= 2 {
                            let rj = rg[2 + (j - 2)];
                        } else {
                            assert(ceil_div(rg[j].1 - rg[j].0, 1) == rg[j].1);
                        }
                    }
                }
            }
            assert(slice_ok(self.sh(x), rg)) by {
                assert forall|j: int| 0 <= j < rg.len() implies
                    (#[trigger] rg[j]).2 > 0 && rg[j].0 <= rg[j].1 <= s[j] by {
                    if j >= 2 {
                        let jj = j - 2;
                        assert(rg[2 + jj] == rg[j]);
                        assert(kernel@[jj] >= 1 && stride@[jj] >= 1);
                    }
                }
            }
            let ghost gs = *self;
            let win = ok_id(self.slice_step(x, ranges));
            let ghost gw = *self;
            if off == 0 {
                acc = win;
            } else {
                let ghost acc0 = acc;
                let combined = match mode {
                    PoolMode::Max => self.max(acc, win),
                    PoolMode::Min => self.min(acc, win),
                    _ => self.add(acc, win),
                };
                acc = match combined {
                    Ok(a) => a,
                    Err(e) => {
                        return Err(e);
                    },
                };
                proof {
                    lemma_pool_fold_kept(gs, *self, acc0, x, mode, off as nat);
                    assert(self.nodes@[win.0 as int] == gw.nodes@[win.0 as int]);
                }
            }
            off = off + 1;
        }
        if mode == PoolMode::Avg {
            let bits = recip_count_bits(total as u64);
            let ghost ga = *self;
            let inv = self.scalar(acc, bits);
            let ghost g1 = *self;
            let res = self.mul(acc, inv);
            proof {
                lemma_scalar_kept(g1, *self, inv, bits);
                lemma_pool_fold_kept(ga, *self, acc, x, mode, total as nat);
                assert(is_scalar_of(*self, inv, bits));
                assert(f32_positive_normal(bits));
                assert(total < 0x100_0000 ==> nearest_recip(bits, total as int));
                assert(pool_fold(*self, acc, x, mode, total as nat));
                if res is Ok {
                    let id = res->Ok_0;
                    let k = numel(kernel@) as nat;
                    assert(self.node_is(id, Op::Mul, seq![acc, inv]));
                    assert(self.arg(id, 1) == inv && self.arg(id, 0) == acc);
                    assert(pool_fold(*self, self.arg(id, 0), x, mode, k));
                    assert(exists|b: u32| #[trigger] is_scalar_of(*self, self.arg(id, 1), b) && f32_positive_normal(b)
                        && (k < 0x100_0000 ==> nearest_recip(b, k as int)));
                }
            }
            res
        } else {
            assert(pool_fold(*self, acc, x, mode, total as nat));
            Ok(acc)
        }
    }
}

/// The mode a `reduce_window` name selects: `max`, `min`, `sum`, and `avg` (or `mean`).
pub open spec fn pool_mode(m: Seq<char>) -> Option<PoolMode> {
    if m == "max"@ {
        Some(PoolMode::Max)
    } else if m == "min"@ {
        Some(PoolMode::Min)
    } else if m == "sum"@ {
        Some(PoolMode::Sum)
    } else if m == "avg"@ || m == "mean"@ {
        Some(PoolMode::Avg)
    } else {
        None
    }
}

/// A dilation of one along each of `n` axes.
pub open spec fn unit_dilation(n: nat) -> Seq<usize> {
    Seq::new(n, |i: int| 1usize)
}

impl Graph {
    /// General windowed reduction over `[N, C, *spatial]` with per-axis `window`, `stride`
    /// and `dilation`; `mode` is one of `max`, `min`, `sum`, `avg`, `mean`.
    pub fn reduce_window(&mut self, x: NodeId, window: &[usize], stride: &[usize], dilation: &[usize], mode: &str)
        -> (r: Result<NodeId, Error>)
        requires
            old(self).wf(), old(self).valid(x),
            old(self).room(3 * numel(window@) as nat + 4),
            pool_ranks_ok(old(self).sh(x), window@, stride@, dilation@)
                ==> pool_fits(old(self).sh(x), window@, stride@, dilation@),
        ensures
            final(self).wf(), final(self).grew(*old(self), 3 * numel(window@) as nat + 4),
            r is Ok <==> pool_mode(mode@) is Some && pool_ranks_ok(old(self).sh(x), window@, stride@, dilation@)
                && pool_dtype_ok(pool_mode(mode@)->0, old(self).dt(x), numel(window@)),
            r matches Ok(id) ==> final(self).valid(id)
                && final(self).sh(id) == pooled(old(self).sh(x), window@, stride@, dilation@)
                && final(self).dt(id) == old(self).dt(x),
            r matches Ok(id) ==> pooled_by(*final(self), id, x, pool_mode(mode@)->0, numel(window@) as nat),
    {
        let m = if str_eq(mode, "max") {
            PoolMode::Max
        } else if str_eq(mode, "min") {
            PoolMode::Min
        } else if str_eq(mode, "sum") {
            PoolMode::Sum
        } else if str_eq(mode, "avg") || str_eq(mode, "mean") {
            PoolMode::Avg
        } else {
            return Err(Error::new("reduce_window", ErrorKind::Invalid));
        };
        self.pool_nd(x, window, stride, dilation, m)
    }

    /// Pool with unit dilation over as many spatial axes as `kernel` has.
    fn pool_undilated(&mut self, x: NodeId, kernel: Vec<usize>, stride: Vec<usize>, mode: PoolMode)
        -> (r: Result<NodeId, Error>)
        requires
            old(self).wf(), old(self).valid(x),
            old(self).room(3 * numel(kernel@) as nat + 4),
            stride@.len() == kernel@.len(),
            old(self).sh(x).len() == kernel@.len() + 2
                ==> pool_fits(old(self).sh(x), kernel@, stride@, unit_dilation(kernel@.len())),
        ensures
            final(self).wf(), final(self).grew(*old(self), 3 * numel(kernel@) as nat + 4),
            r is Ok <==> old(self).sh(x).len() == kernel@.len() + 2
                && pool_dtype_ok(mode, old(self).dt(x), numel(kernel@)),
            r matches Ok(id) ==> final(self).valid(id)
                && final(self).sh(id) == pooled(old(self).sh(x), kernel@, stride@, unit_dilation(kernel@.len()))
                && final(self).dt(id) == old(self).dt(x),
            r matches Ok(id) ==> pooled_by(*final(self), id, x, mode, numel(kernel@) as nat),
    {
        let mut dil: Vec<usize> = Vec::new();
        let mut i: usize = 0;
        while i < kernel.len()
            invariant i <= kernel@.len(), dil@ == unit_dilation(i as nat),
            decreases kernel@.len() - i,
        {
            dil.push(1);
            i = i + 1;
            assert(dil@ =~= unit_dilation(i as nat));
        }
        self.pool_nd(x, kernel.as_slice(), stride.as_slice(), dil.as_slice(), mode)
    }

    /// 1-D maximum pooling `[N, C, L] -> [N, C, Lo]` (no padding, unit dilation).
    pub fn max_pool1d(&mut self, x: NodeId, k: usize, s: usize) -> (r: Result<NodeId, Error>)
        requires
            old(self).wf(), old(self).valid(x),
            old(self).room(3 * numel(seq![k]) as nat + 4),
            old(self).sh(x).len() == 3 ==> pool_fits(old(self).sh(x), seq![k], seq![s], unit_dilation(1)),
        ensures
            final(self).wf(), final(self).grew(*old(self), 3 * numel(seq![k]) as nat + 4),
            r is Ok <==> old(self).sh(x).len() == 3
                && pool_dtype_ok(PoolMode::Max, old(self).dt(x), numel(seq![k])),
            r matches Ok(id) ==> final(self).valid(id)
                && final(self).sh(id) == pooled(old(self).sh(x), seq![k], seq![s], unit_dilation(1))
                && final(self).dt(id) == old(self).dt(x),
            r matches Ok(id) ==> pooled_by(*final(self), id, x, PoolMode::Max, numel(seq![k]) as nat),
    {
        let kv: Vec<usize> = vec![k];
        let sv: Vec<usize> = vec![s];
        assert(kv@ =~= seq![k] && sv@ =~= seq![s]);
        self.pool_undilated(x, kv, sv, PoolMode::Max)
    }

    /// 1-D mean pooling `[N, C, L] -> [N, C, Lo]` (no padding, unit dilation).
    pub fn avg_pool1d(&mut self, x: NodeId, k: usize, s: usize) -> (r: Result<NodeId, Error>)
        requires
            old(self).wf(), old(self).valid(x),
            old(self).room(3 * numel(seq![k]) as nat + 4),
            old(self).sh(x).len() == 3 ==> pool_fits(old(self).sh(x), seq![k], seq![s], unit_dilation(1)),
        ensures
            final(self).wf(), final(self).grew(*old(self), 3 * numel(seq![k]) as nat + 4),
            r is Ok <==> old(self).sh(x).len() == 3
                && pool_dtype_ok(PoolMode::Avg, old(self).dt(x), numel(seq![k])),
            r matches Ok(id) ==> final(self).valid(id)
                && final(self).sh(id) == pooled(old(self).sh(x), seq![k], seq![s], unit_dilation(1))
                && final(self).dt(id) == old(self).dt(x),
            r matches Ok(id) ==> pooled_by(*final(self), id, x, PoolMode::Avg, numel(seq![k]) as nat),
    {
        let kv: Vec<usize> = vec![k];
        let sv: Vec<usize> = vec![s];
        assert(kv@ =~= seq![k] && sv@ =~= seq![s]);
        self.pool_undilated(x, kv, sv, PoolMode::Avg)
    }

    /// 1-D minimum pooling `[N, C, L] -> [N, C, Lo]` (no padding, unit dilation).
    pub fn min_pool1d(&mut self, x: NodeId, k: usize, s: usize) -> (r: Result<NodeId, Error>)
        requires
            old(self).wf(), old(self).valid(x),
            old(self).room(3 * numel(seq![k]) as nat + 4),
            old(self).sh(x).len() == 3 ==> pool_fits(old(self).sh(x), seq![k], seq![s], unit_dilation(1)),
        ensures
            final(self).wf(), final(self).grew(*old(self), 3 * numel(seq![k]) as nat + 4),
            r is Ok <==> old(self).sh(x).len() == 3
                && pool_dtype_ok(PoolMode::Min, old(self).dt(x), numel(seq![k])),
            r matches Ok(id) ==> final(self).valid(id)
                && final(self).sh(id) == pooled(old(self).sh(x), seq![k], seq![s], unit_dilation(1))
                && final(self).dt(id) == old(self).dt(x),
            r matches Ok(id) ==> pooled_by(*final(self), id, x, PoolMode::Min, numel(seq![k]) as nat),
    {
        let kv: Vec<usize> = vec![k];
        let sv: Vec<usize> = vec![s];
        assert(kv@ =~= seq![k] && sv@ =~= seq![s]);
        self.pool_undilated(x, kv, sv, PoolMode::Min)
    }

    /// 1-D sum pooling `[N, C, L] -> [N, C, Lo]` (no padding, unit dilation).
    pub fn sum_pool1d(&mut self, x: NodeId, k: usize, s: usize) -> (r: Result<NodeId, Error>)
        requires
            old(self).wf(), old(self).valid(x),
            old(self).room(3 * numel(seq![k]) as nat + 4),
            old(self).sh(x).len() == 3 ==> pool_fits(old(self).sh(x), seq![k], seq![s], unit_dilation(1)),
        ensures
            final(self).wf(), final(self).grew(*old(self), 3 * numel(seq![k]) as nat + 4),
            r is Ok <==> old(self).sh(x).len() == 3
                && pool_dtype_ok(PoolMode::Sum, old(self).dt(x), numel(seq![k])),
            r matches Ok(id) ==> final(self).valid(id)
                && final(self).sh(id) == pooled(old(self).sh(x), seq![k], seq![s], unit_dilation(1))
                && final(self).dt(id) == old(self).dt(x),
            r matches Ok(id) ==> pooled_by(*final(self), id, x, PoolMode::Sum, numel(seq![k]) as nat),
    {
        let kv: Vec<usize> = vec![k];
        let sv: Vec<usize> = vec![s];
        assert(kv@ =~= seq![k] && sv@ =~= seq![s]);
        self.pool_undilated(x, kv, sv, PoolMode::Sum)
    }

    /// 2-D maximum pooling `[N, C, H, W] -> [N, C, Ho, Wo]` (no padding, unit dilation).
    pub fn max_pool2d(&mut self, x: NodeId, k: (usize, usize), s: (usize, usize)) -> (r: Result<NodeId, Error>)
        requires
            old(self).wf(), old(self).valid(x),
            old(self).room(3 * numel(seq![k.0, k.1]) as nat + 4),
            old(self).sh(x).len() == 4 ==> pool_fits(old(self).sh(x), seq![k.0, k.1], seq![s.0, s.1], unit_dilation(2)),
        ensures
            final(self).wf(), final(self).grew(*old(self), 3 * numel(seq![k.0, k.1]) as nat + 4),
            r is Ok <==> old(self).sh(x).len() == 4
                && pool_dtype_ok(PoolMode::Max, old(self).dt(x), numel(seq![k.0, k.1])),
            r matches Ok(id) ==> final(self).valid(id)
                && final(self).sh(id) == pooled(old(self).sh(x), seq![k.0, k.1], seq![s.0, s.1], unit_dilation(2))
                && final(self).dt(id) == old(self).dt(x),
            r matches Ok(id) ==> pooled_by(*final(self), id, x, PoolMode::Max, numel(seq![k.0, k.1]) as nat),
    {
        let kv: Vec<usize> = vec![k.0, k.1];
        let sv: Vec<usize> = vec![s.0, s.1];
        assert(kv@ =~= seq![k.0, k.1] && sv@ =~= seq![s.0, s.1]);
        self.pool_undilated(x, kv, sv, PoolMode::Max)
    }

    /// 2-D mean pooling `[N, C, H, W] -> [N, C, Ho, Wo]` (no padding, unit dilation).
    pub fn avg_pool2d(&mut self, x: NodeId, k: (usize, usize), s: (usize, usize)) -> (r: Result<NodeId, Error>)
        requires
            old(self).wf(), old(self).valid(x),
            old(self).room(3 * numel(seq![k.0, k.1]) as nat + 4),
            old(self).sh(x).len() == 4 ==> pool_fits(old(self).sh(x), seq![k.0, k.1], seq![s.0, s.1], unit_dilation(2)),
        ensures
            final(self).wf(), final(self).grew(*old(self), 3 * numel(seq![k.0, k.1]) as nat + 4),
            r is Ok <==> old(self).sh(x).len() == 4
                && pool_dtype_ok(PoolMode::Avg, old(self).dt(x), numel(seq![k.0, k.1])),
            r matches Ok(id) ==> final(self).valid(id)
                && final(self).sh(id) == pooled(old(self).sh(x), seq![k.0, k.1], seq![s.0, s.1], unit_dilation(2))
                && final(self).dt(id) == old(self).dt(x),
            r matches Ok(id) ==> pooled_by(*final(self), id, x, PoolMode::Avg, numel(seq![k.0, k.1]) as nat),
    {
        let kv: Vec<usize> = vec![k.0, k.1];
        let sv: Vec<usize> = vec![s.0, s.1];
        assert(kv@ =~= seq![k.0, k.1] && sv@ =~= seq![s.0, s.1]);
        self.pool_undilated(x, kv, sv, PoolMode::Avg)
    }

    /// 2-D minimum pooling `[N, C, H, W] -> [N, C, Ho, Wo]` (no padding, unit dilation).
    pub fn min_pool2d(&mut self, x: NodeId, k: (usize, usize), s: (usize, usize)) -> (r: Result<NodeId, Error>)
        requires
            old(self).wf(), old(self).valid(x),
            old(self).room(3 * numel(seq![k.0, k.1]) as nat + 4),
            old(self).sh(x).len() == 4 ==> pool_fits(old(self).sh(x), seq![k.0, k.1], seq![s.0, s.1], unit_dilation(2)),
        ensures
            final(self).wf(), final(self).grew(*old(self), 3 * numel(seq![k.0, k.1]) as nat + 4),
            r is Ok <==> old(self).sh(x).len() == 4
                && pool_dtype_ok(PoolMode::Min, old(self).dt(x), numel(seq![k.0, k.1])),
            r matches Ok(id) ==> final(self).valid(id)
                && final(self).sh(id) == pooled(old(self).sh(x), seq![k.0, k.1], seq![s.0, s.1], unit_dilation(2))
                && final(self).dt(id) == old(self).dt(x),
            r matches Ok(id) ==> pooled_by(*final(self), id, x, PoolMode::Min, numel(seq![k.0, k.1]) as nat),
    {
        let kv: Vec<usize> = vec![k.0, k.1];
        let sv: Vec<usize> = vec![s.0, s.1];
        assert(kv@ =~= seq![k.0, k.1] && sv@ =~= seq![s.0, s.1]);
        self.pool_undilated(x, kv, sv, PoolMode::Min)
    }

    /// 2-D sum pooling `[N, C, H, W] -> [N, C, Ho, Wo]` (no padding, unit dilation).
    pub fn sum_pool2d(&mut self, x: NodeId, k: (usize, usize), s: (usize, usize)) -> (r: Result<NodeId, Error>)
        requires
            old(self).wf(), old(self).valid(x),
            old(self).room(3 * numel(seq![k.0, k.1]) as nat + 4),
            old(self).sh(x).len() == 4 ==> pool_fits(old(self).sh(x), seq![k.0, k.1], seq![s.0, s.1], unit_dilation(2)),
        ensures
            final(self).wf(), final(self).grew(*old(self), 3 * numel(seq![k.0, k.1]) as nat + 4),
            r is Ok <==> old(self).sh(x).len() == 4
                && pool_dtype_ok(PoolMode::Sum, old(self).dt(x), numel(seq![k.0, k.1])),
            r matches Ok(id) ==> final(self).valid(id)
                && final(self).sh(id) == pooled(old(self).sh(x), seq![k.0, k.1], seq![s.0, s.1], unit_dilation(2))
                && final(self).dt(id) == old(self).dt(x),
            r matches Ok(id) ==> pooled_by(*final(self), id, x, PoolMode::Sum, numel(seq![k.0, k.1]) as nat),
    {
        let kv: Vec<usize> = vec![k.0, k.1];
        let sv: Vec<usize> = vec![s.0, s.1];
        assert(kv@ =~= seq![k.0, k.1] && sv@ =~= seq![s.0, s.1]);
        self.pool_undilated(x, kv, sv, PoolMode::Sum)
    }

    /// 3-D maximum pooling `[N, C, D, H, W] -> [N, C, Do, Ho, Wo]` (no padding, unit dilation).
    pub fn max_pool3d(&mut self, x: NodeId, k: (usize, usize, usize), s: (usize, usize, usize)) -> (r: Result<NodeId, Error>)
        requires
            old(self).wf(), old(self).valid(x),
            old(self).room(3 * numel(seq![k.0, k.1, k.2]) as nat + 4),
            old(self).sh(x).len() == 5 ==> pool_fits(old(self).sh(x), seq![k.0, k.1, k.2], seq![s.0, s.1, s.2], unit_dilation(3)),
        ensures
            final(self).wf(), final(self).grew(*old(self), 3 * numel(seq![k.0, k.1, k.2]) as nat + 4),
            r is Ok <==> old(self).sh(x).len() == 5
                && pool_dtype_ok(PoolMode::Max, old(self).dt(x), numel(seq![k.0, k.1, k.2])),
            r matches Ok(id) ==> final(self).valid(id)
                && final(self).sh(id) == pooled(old(self).sh(x), seq![k.0, k.1, k.2], seq![s.0, s.1, s.2], unit_dilation(3))
                && final(self).dt(id) == old(self).dt(x),
            r matches Ok(id) ==> pooled_by(*final(self), id, x, PoolMode::Max, numel(seq![k.0, k.1, k.2]) as nat),
    {
        let kv: Vec<usize> = vec![k.0, k.1, k.2];
        let sv: Vec<usize> = vec![s.0, s.1, s.2];
        assert(kv@ =~= seq![k.0, k.1, k.2] && sv@ =~= seq![s.0, s.1, s.2]);
        self.pool_undilated(x, kv, sv, PoolMode::Max)
    }

    /// 3-D mean pooling `[N, C, D, H, W] -> [N, C, Do, Ho, Wo]` (no padding, unit dilation).
    pub fn avg_pool3d(&mut self, x: NodeId, k: (usize, usize, usize), s: (usize, usize, usize)) -> (r: Result<NodeId, Error>)
        requires
            old(self).wf(), old(self).valid(x),
            old(self).room(3 * numel(seq![k.0, k.1, k.2]) as nat + 4),
            old(self).sh(x).len() == 5 ==> pool_fits(old(self).sh(x), seq![k.0, k.1, k.2], seq![s.0, s.1, s.2], unit_dilation(3)),
        ensures
            final(self).wf(), final(self).grew(*old(self), 3 * numel(seq![k.0, k.1, k.2]) as nat + 4),
            r is Ok <==> old(self).sh(x).len() == 5
                && pool_dtype_ok(PoolMode::Avg, old(self).dt(x), numel(seq![k.0, k.1, k.2])),
            r matches Ok(id) ==> final(self).valid(id)
                && final(self).sh(id) == pooled(old(self).sh(x), seq![k.0, k.1, k.2], seq![s.0, s.1, s.2], unit_dilation(3))
                && final(self).dt(id) == old(self).dt(x),
            r matches Ok(id) ==> pooled_by(*final(self), id, x, PoolMode::Avg, numel(seq![k.0, k.1, k.2]) as nat),
    {
        let kv: Vec<usize> = vec![k.0, k.1, k.2];
        let sv: Vec<usize> = vec![s.0, s.1, s.2];
        assert(kv@ =~= seq![k.0, k.1, k.2] && sv@ =~= seq![s.0, s.1, s.2]);
        self.pool_undilated(x, kv, sv, PoolMode::Avg)
    }

    /// 3-D minimum pooling `[N, C, D, H, W] -> [N, C, Do, Ho, Wo]` (no padding, unit dilation).
    pub fn min_pool3d(&mut self, x: NodeId, k: (usize, usize, usize), s: (usize, usize, usize)) -> (r: Result<NodeId, Error>)
        requires
            old(self).wf(), old(self).valid(x),
            old(self).room(3 * numel(seq![k.0, k.1, k.2]) as nat + 4),
            old(self).sh(x).len() == 5 ==> pool_fits(old(self).sh(x), seq![k.0, k.1, k.2], seq![s.0, s.1, s.2], unit_dilation(3)),
        ensures
            final(self).wf(), final(self).grew(*old(self), 3 * numel(seq![k.0, k.1, k.2]) as nat + 4),
            r is Ok <==> old(self).sh(x).len() == 5
                && pool_dtype_ok(PoolMode::Min, old(self).dt(x), numel(seq![k.0, k.1, k.2])),
            r matches Ok(id) ==> final(self).valid(id)
                && final(self).sh(id) == pooled(old(self).sh(x), seq![k.0, k.1, k.2], seq![s.0, s.1, s.2], unit_dilation(3))
                && final(self).dt(id) == old(self).dt(x),
            r matches Ok(id) ==> pooled_by(*final(self), id, x, PoolMode::Min, numel(seq![k.0, k.1, k.2]) as nat),
    {
        let kv: Vec<usize> = vec![k.0, k.1, k.2];
        let sv: Vec<usize> = vec![s.0, s.1, s.2];
        assert(kv@ =~= seq![k.0, k.1, k.2] && sv@ =~= seq![s.0, s.1, s.2]);
        self.pool_undilated(x, kv, sv, PoolMode::Min)
    }

    /// 3-D sum pooling `[N, C, D, H, W] -> [N, C, Do, Ho, Wo]` (no padding, unit dilation).
    pub fn sum_pool3d(&mut self, x: NodeId, k: (usize, usize, usize), s: (usize, usize, usize)) -> (r: Result<NodeId, Error>)
        requires
            old(self).wf(), old(self).valid(x),
            old(self).room(3 * numel(seq![k.0, k.1, k.2]) as nat + 4),
            old(self).sh(x).len() == 5 ==> pool_fits(old(self).sh(x), seq![k.0, k.1, k.2], seq![s.0, s.1, s.2], unit_dilation(3)),
        ensures
            final(self).wf(), final(self).grew(*old(self), 3 * numel(seq![k.0, k.1, k.2]) as nat + 4),
            r is Ok <==> old(self).sh(x).len() == 5
                && pool_dtype_ok(PoolMode::Sum, old(self).dt(x), numel(seq![k.0, k.1, k.2])),
            r matches Ok(id) ==> final(self).valid(id)
                && final(self).sh(id) == pooled(old(self).sh(x), seq![k.0, k.1, k.2], seq![s.0, s.1, s.2], unit_dilation(3))
                && final(self).dt(id) == old(self).dt(x),
            r matches Ok(id) ==> pooled_by(*final(self), id, x, PoolMode::Sum, numel(seq![k.0, k.1, k.2]) as nat),
    {
        let kv: Vec<usize> = vec![k.0, k.1, k.2];
        let sv: Vec<usize> = vec![s.0, s.1, s.2];
        assert(kv@ =~= seq![k.0, k.1, k.2] && sv@ =~= seq![s.0, s.1, s.2]);
        self.pool_undilated(x, kv, sv, PoolMode::Sum)
    }
}

pub proof fn lemma_numel_prefix(k: Seq<usize>, i: int)
    requires 0 <= i <= k.len(), numel(k) <= usize::MAX, forall|j: int| 0 <= j < k.len() ==> #[trigger] k[j] >= 1,
    ensures numel(k.take(i)) <= numel(k), numel(k.take(i)) >= 1,
    decreases k.len() - i,
{
    if i == k.len() {
        assert(k.take(i) =~= k);
        lemma_numel_pos(k);
    } else {
        lemma_numel_prefix(k, i + 1);
        assert(k.take(i + 1).drop_last() =~= k.take(i));
        lemma_numel_pos(k.take(i));
        assert(numel(k.take(i)) * k[i] >= numel(k.take(i))) by (nonlinear_arith)
            requires k[i] >= 1, numel(k.take(i)) >= 1;
    }
}

pub proof fn lemma_numel_pos(k: Seq<usize>)
    requires forall|j: int| 0 <= j < k.len() ==> #[trigger] k[j] >= 1,
    ensures numel(k) >= 1,
    decreases k.len(),
{
    if k.len() > 0 {
        let init = k.drop_last();
        assert forall|j: int| 0 <= j < init.len() implies #[trigger] init[j] >= 1 by { assert(init[j] == k[j]); }
        lemma_numel_pos(init);
        assert(numel(init) * k.last() >= 1) by (nonlinear_arith) requires numel(init) >= 1, k.last() >= 1;
    }
}

} // verus!
