//! N-d indexing (GatherND / ScatterND): a trailing length-`K` coordinate axis of `idx`
//! selects into the leading `K` dims of `x`; the coordinates fold into one flat row index and
//! the work is a row gather or scatter.

use vstd::prelude::*;
use crate::bytes::{push_u64, le_u64};
use crate::dtype::DType;
use crate::error::{Error, ErrorKind};
use crate::storage::Storage;
use crate::graph::{Graph, NodeId, Op, ScatterOp};
use crate::graph::shape::{numel, ones_vec, expand_ok, lemma_numel_concat, lemma_numel_single};
use crate::graph::ops::base::scalar::ok_id;
use crate::graph::ops::base::signal::axis_ranges;

verus! {

/// `x` `[..]` and coordinates `idx` `[.., K]` agree: a coordinate axis with `1 <= K <= rank(x)`.
pub open spec fn nd_ok(xs: Seq<usize>, is: Seq<usize>) -> bool {
    is.len() >= 1 && 1 <= is.last() <= xs.len()
}

/// The products the fold computes fit in `usize`.
pub open spec fn nd_fits(xs: Seq<usize>, is: Seq<usize>) -> bool {
    nd_ok(xs, is) ==> {
        let k = is.last() as int;
        &&& forall|j: int| 0 <= j <= k ==> numel(#[trigger] xs.subrange(j, k)) <= usize::MAX
        &&& numel(xs.skip(k)) <= usize::MAX
        &&& numel(is) <= usize::MAX
        &&& numel(is.drop_last()) * numel(xs.skip(k)) <= usize::MAX
    }
}

/// `max(1, v)`.
pub open spec fn at_least_one(v: int) -> int {
    if v == 0 { 1 } else { v }
}

/// `numel([a] ++ rest) == a * numel(rest)`.
proof fn lemma_numel_cons(a: usize, rest: Seq<usize>)
    ensures numel(seq![a] + rest) == a * numel(rest),
{
    lemma_numel_concat(seq![a], rest);
    lemma_numel_single(a);
}

/// An I64 storage holding `v` (one element).
pub fn i64_storage(v: u64) -> (s: Storage)
    ensures s.spec_dtype() == DType::I64, s.wf(), s.spec_bytes() == le_u64(v),
{
    let mut b: Vec<u8> = Vec::new();
    push_u64(&mut b, v);
    assert(b@ =~= le_u64(v));
    Storage::new(DType::I64, b)
}

impl Graph {
    /// The constant `v` as I64, broadcast to `like`'s shape.
    fn i64_like(&mut self, like: NodeId, v: u64) -> (id: NodeId)
        requires old(self).wf(), old(self).room(2), old(self).valid(like),
        ensures
            final(self).wf(), final(self).grew(*old(self), 2),
            final(self).valid(id), final(self).sh(id) == old(self).sh(like), final(self).dt(id) == DType::I64,
    {
        let shape = self.shape(like);
        let c = self.const_storage(i64_storage(v), ones_vec(shape.len()));
        proof { crate::graph::ops::base::scalar::lemma_expand_ones(shape@); }
        ok_id(self.expand(c, shape))
    }

    /// Fold the length-`K` coordinates of `idx` into a flat row index over the leading `K`
    /// dims of `x`: `(flat, b, d, t, batch, trail)` with `flat` shaped `batch` (I64), `d` the
    /// product of those dims, `b`/`t` the products of `batch`/`trail` (at least one).
    #[verifier::loop_isolation(false)]
    #[verifier::spinoff_prover]
    #[verifier::rlimit(60)]
    fn nd_flat(&mut self, x: NodeId, idx: NodeId) -> (r: Result<(NodeId, usize, usize, usize, Vec<usize>, Vec<usize>), Error>)
        requires
            old(self).wf(), old(self).valid(x), old(self).valid(idx),
            nd_fits(old(self).sh(x), old(self).sh(idx)),
            nd_ok(old(self).sh(x), old(self).sh(idx)) ==> old(self).room(6 * old(self).sh(idx).last() as nat + 1),
        ensures
            r is Ok <==> nd_ok(old(self).sh(x), old(self).sh(idx)),
            r is Err ==> *final(self) == *old(self),
            final(self).wf(),
            r matches Ok((flat, b, d, t, batch, trail)) ==> ({
                let xs = old(self).sh(x);
                let is = old(self).sh(idx);
                let k = is.last() as int;
                &&& final(self).grew(*old(self), 6 * is.last() as nat + 1)
                &&& final(self).valid(flat) && final(self).sh(flat) == is.drop_last()
                &&& final(self).dt(flat) == DType::I64
                &&& batch@ == is.drop_last() && trail@ == xs.skip(k)
                &&& b == at_least_one(numel(is.drop_last())) && t == at_least_one(numel(xs.skip(k)))
                &&& d == numel(xs.take(k))
            }),
    {
        let ghost g0 = *self;
        let xsh = self.shape(x);
        let ish = self.shape(idx);
        if ish.len() == 0 {
            return Err(Error::new("nd", ErrorKind::Invalid));
        }
        let r = xsh.len();
        let last = ish.len() - 1;
        let k = ish[last];
        if k == 0 || k > r {
            return Err(Error::new("nd", ErrorKind::Invalid));
        }
        let idx = if self.dtype(idx) == DType::I64 { idx } else { self.cast(idx, DType::I64) };
        let mut batch: Vec<usize> = Vec::new();
        let mut j: usize = 0;
        while j < last
            invariant j <= last, batch@ == ish@.take(j as int),
            decreases last - j,
        {
            batch.push(ish[j]);
            j = j + 1;
            assert(batch@ =~= ish@.take(j as int));
        }
        assert(ish@.take(last as int) =~= ish@.drop_last());
        let mut trail: Vec<usize> = Vec::new();
        let mut j: usize = k;
        while j < r
            invariant k <= j <= r, trail@ == xsh@.subrange(k as int, j as int),
            decreases r - j,
        {
            trail.push(xsh[j]);
            j = j + 1;
            assert(trail@ =~= xsh@.subrange(k as int, j as int));
        }
        assert(xsh@.subrange(k as int, r as int) =~= xsh@.skip(k as int));
        assert(xsh@.subrange(0, k as int) =~= xsh@.take(k as int));
        let mut lead: Vec<usize> = Vec::new();
        let mut j: usize = 0;
        while j < k
            invariant j <= k, k <= r, r == xsh@.len(), lead@ == xsh@.take(j as int),
            decreases k - j,
        {
            lead.push(xsh[j]);
            j = j + 1;
            assert(lead@ =~= xsh@.take(j as int));
        }
        proof {
            assert(xsh@.subrange(0, k as int) =~= xsh@.take(k as int));
            crate::graph::shape::lemma_numel_nonneg(ish@.drop_last());
            assert(numel(ish@) == numel(ish@.drop_last()) * k);
            assert(numel(ish@.drop_last()) <= numel(ish@)) by (nonlinear_arith)
                requires numel(ish@) == numel(ish@.drop_last()) * k, k >= 1, numel(ish@.drop_last()) >= 0;
        }
        let d = match crate::graph::shape::numel_checked(&lead) { Some(v) => v, None => 0 };
        let t = match crate::graph::shape::numel_checked(&trail) { Some(v) => if v == 0 { 1 } else { v }, None => 1 };
        let b = match crate::graph::shape::numel_checked(&batch) { Some(v) => if v == 0 { 1 } else { v }, None => 1 };
        let mut flat: NodeId = idx;
        let mut stride: usize = 1;
        let mut kk: usize = k;
        let ghost is = ish@;
        proof { crate::graph::shape::lemma_numel_update_le(is, last as int, 1); }
        while kk > 0
            invariant
                kk <= k, self.wf(), self.grew(g0, 1 + 6 * (k - kk) as nat),
                self.valid(idx), self.sh(idx) == is, self.dt(idx) == DType::I64,
                stride == numel(xsh@.subrange(kk as int, k as int)),
                kk < k ==> self.valid(flat) && self.sh(flat) == is.drop_last() && self.dt(flat) == DType::I64,
            decreases kk,
        {
            kk = kk - 1;
            let rng = axis_ranges(&ish, last, kk, kk + 1);
            proof {
                assert forall|q: int| 0 <= q < rng@.len() implies (#[trigger] rng@[q]).0 <= rng@[q].1 <= is[q] by {}
                assert(rng@.map_values(|p: (usize, usize)| (p.1 - p.0) as usize) =~= is.update(last as int, 1));
            }
            let sl = ok_id(self.slice(idx, rng));
            let coord = ok_id(self.squeeze(sl, last));
            assert(is.update(last as int, 1usize).remove(last as int) =~= is.drop_last());
            let term = if stride == 1 {
                coord
            } else {
                let s = self.i64_like(coord, stride as u64);
                ok_id(self.mul(coord, s))
            };
            if kk + 1 == k {
                flat = term;
            } else {
                flat = ok_id(self.add(flat, term));
            }
            proof {
                assert(xsh@.subrange(kk as int, k as int) =~= seq![xsh@[kk as int]] + xsh@.subrange(kk + 1, k as int));
                lemma_numel_cons(xsh@[kk as int], xsh@.subrange(kk + 1, k as int));
                assert(numel(xsh@.subrange(kk as int, k as int)) <= usize::MAX);
                assert(numel(xsh@.subrange(kk as int, k as int)) == xsh@[kk as int] * numel(xsh@.subrange(kk + 1, k as int)));
                assert(stride * xsh@[kk as int] == xsh@[kk as int] * stride) by (nonlinear_arith);
            }
            stride = stride * xsh[kk];
        }
        Ok((flat, b, d, t, batch, trail))
    }

    /// N-d gather (GatherND, no batch dims): `idx` `[.., K]` with `K <= rank(x)`, each
    /// coordinate selecting into the leading `K` dims of `x`; output `idx.shape[:-1] ++
    /// x.shape[K:]`.
    #[verifier::spinoff_prover]
    #[verifier::rlimit(60)]
    pub fn gather_nd(&mut self, x: NodeId, idx: NodeId) -> (r: Result<NodeId, Error>)
        requires
            old(self).wf(), old(self).valid(x), old(self).valid(idx),
            nd_fits(old(self).sh(x), old(self).sh(idx)), numel(old(self).sh(x)) <= usize::MAX,
            nd_ok(old(self).sh(x), old(self).sh(idx)) ==> old(self).room(6 * old(self).sh(idx).last() as nat + 6),
        ensures
            final(self).wf(),
            r is Ok <==> nd_ok(old(self).sh(x), old(self).sh(idx)) && numel(old(self).sh(idx).drop_last()) >= 1
                && numel(old(self).sh(x).skip(old(self).sh(idx).last() as int)) >= 1,
            r matches Ok(id) ==> final(self).valid(id) && final(self).dt(id) == old(self).dt(x)
                && final(self).grew(*old(self), 6 * old(self).sh(idx).last() as nat + 6)
                && final(self).sh(id) == old(self).sh(idx).drop_last() + old(self).sh(x).skip(old(self).sh(idx).last() as int),
    {
        let ghost xs = self.sh(x);
        let ghost is = self.sh(idx);
        let (flat, b, d, t, batch, trail) = self.nd_flat(x, idx)?;
        let ghost k = is.last() as int;
        let ghost nb = numel(is.drop_last());
        let ghost nt = numel(xs.skip(k));
        proof {
            assert(xs =~= xs.take(k) + xs.skip(k));
            lemma_numel_concat(xs.take(k), xs.skip(k));
            crate::graph::shape::lemma_numel_nonneg(xs.take(k));
            lemma_numel_concat(seq![d], seq![t]);
            lemma_numel_single(d);
            lemma_numel_single(t);
            assert(seq![d] + seq![t] =~= seq![d, t]);
            lemma_numel_concat(seq![b], seq![1usize]);
            lemma_numel_single(b);
            lemma_numel_single(1);
            assert(seq![b] + seq![1usize] =~= seq![b, 1usize]);
        }
        let v1: Vec<usize> = vec![d, t];
        assert(v1@ =~= seq![d, t]);
        let xr = match self.reshape(x, v1) {
            Ok(v) => v,
            Err(e) => {
                assert(nt == 0) by {
                    if nt >= 1 { assert(t == nt); }
                }
                return Err(e);
            },
        };
        let v2: Vec<usize> = vec![b, 1];
        assert(v2@ =~= seq![b, 1usize]);
        let flat2 = match self.reshape(flat, v2) {
            Ok(v) => v,
            Err(e) => {
                assert(nb == 0) by {
                    if nb >= 1 { assert(b == nb); }
                }
                return Err(e);
            },
        };
        let v3: Vec<usize> = vec![b, t];
        assert(v3@ =~= seq![b, t]);
        assert(expand_ok(seq![b, 1usize], seq![b, t]));
        let flatbt = ok_id(self.expand(flat2, v3));
        assert(crate::graph::ops::base::indexing::along_ok(seq![d, t], seq![b, t], 0));
        let gathered = ok_id(self.gather_along(xr, flatbt, 0));
        let mut out_shape = batch;
        crate::graph::derive::append_vec(&mut out_shape, &trail);
        proof {
            lemma_numel_concat(seq![b], seq![t]);
            assert(seq![b] + seq![t] =~= seq![b, t]);
            assert(numel(seq![b, t]) == b * t);
            lemma_numel_concat(is.drop_last(), xs.skip(k));
            assert(numel(out_shape@) == nb * nt);
            assert(nb >= 1 ==> b == nb);
            assert(b * t <= usize::MAX) by (nonlinear_arith)
                requires b * t == (if nb >= 1 { nb } else { 1 }) * t, nb * nt <= usize::MAX,
                    t == (if nt >= 1 { nt } else { 1 }), nb >= 0, nt >= 0, nb <= usize::MAX, nt <= usize::MAX;
            if nt == 0 {
                assert(numel(is.drop_last() + xs.skip(k)) == 0) by (nonlinear_arith)
                    requires numel(is.drop_last() + xs.skip(k)) == nb * nt, nt == 0;
                assert(b * t != 0) by (nonlinear_arith) requires b >= 1, t >= 1;
            }
        }
        self.reshape(gathered, out_shape)
    }

    /// N-d scatter (ScatterND), the dual of `gather_nd`: combine `updates` (shaped
    /// `idx.shape[:-1] ++ x.shape[K:]`) into a copy of `x` at the coordinates in `idx`.
    #[verifier::spinoff_prover]
    #[verifier::rlimit(60)]
    pub fn scatter_nd(&mut self, x: NodeId, idx: NodeId, updates: NodeId, combine: ScatterOp) -> (r: Result<NodeId, Error>)
        requires
            old(self).wf(), old(self).valid(x), old(self).valid(idx), old(self).valid(updates),
            nd_fits(old(self).sh(x), old(self).sh(idx)), numel(old(self).sh(x)) <= usize::MAX,
            numel(old(self).sh(updates)) <= usize::MAX,
            nd_ok(old(self).sh(x), old(self).sh(idx)) ==> old(self).room(6 * old(self).sh(idx).last() as nat + 7),
        ensures
            final(self).wf(),
            r is Ok <==> nd_ok(old(self).sh(x), old(self).sh(idx))
                && old(self).sh(updates) == old(self).sh(idx).drop_last() + old(self).sh(x).skip(old(self).sh(idx).last() as int)
                && numel(old(self).sh(idx).drop_last()) >= 1
                && numel(old(self).sh(x).skip(old(self).sh(idx).last() as int)) >= 1
                && old(self).dt(updates) == old(self).dt(x),
            r matches Ok(id) ==> final(self).valid(id) && final(self).dt(id) == old(self).dt(x)
                && final(self).grew(*old(self), 6 * old(self).sh(idx).last() as nat + 7)
                && final(self).sh(id) == old(self).sh(x),
            r matches Ok(id) ==> ({
                let g = *final(self);
                let sc = g.arg(id, 0);
                &&& g.opn(id) is Reshape && g.srcs(id) == seq![sc]
                &&& g.node_is(sc, Op::ScatterAlong { axis: 0, combine }, seq![g.arg(sc, 0), g.arg(sc, 1), g.arg(sc, 2)])
                &&& g.opn(g.arg(sc, 0)) is Reshape && g.srcs(g.arg(sc, 0)) == seq![x]
                &&& g.opn(g.arg(sc, 2)) is Reshape && g.srcs(g.arg(sc, 2)) == seq![updates]
            }),
    {
        let ghost xs = self.sh(x);
        let ghost is = self.sh(idx);
        let (flat, b, d, t, batch, trail) = self.nd_flat(x, idx)?;
        let ghost k = is.last() as int;
        let ghost nb = numel(is.drop_last());
        let ghost nt = numel(xs.skip(k));
        let mut want = batch;
        crate::graph::derive::append_vec(&mut want, &trail);
        let us = self.shape(updates);
        if !crate::graph::shape::shapes_equal(&us, &want) {
            return Err(Error::new("scatter_nd", ErrorKind::ShapeMismatch));
        }
        proof {
            assert(xs =~= xs.take(k) + xs.skip(k));
            lemma_numel_concat(xs.take(k), xs.skip(k));
            lemma_numel_concat(is.drop_last(), xs.skip(k));
            crate::graph::shape::lemma_numel_nonneg(xs.take(k));
            crate::graph::shape::lemma_numel_nonneg(is.drop_last());
            crate::graph::shape::lemma_numel_nonneg(xs.skip(k));
            lemma_numel_concat(seq![d], seq![t]);
            lemma_numel_single(d);
            lemma_numel_single(t);
            assert(seq![d] + seq![t] =~= seq![d, t]);
            lemma_numel_concat(seq![b], seq![1usize]);
            lemma_numel_single(b);
            lemma_numel_single(1);
            assert(seq![b] + seq![1usize] =~= seq![b, 1usize]);
            lemma_numel_concat(seq![b], seq![t]);
            assert(seq![b] + seq![t] =~= seq![b, t]);
        }
        let xsh = self.shape(x);
        let v1: Vec<usize> = vec![d, t];
        assert(v1@ =~= seq![d, t]);
        let xr = match self.reshape(x, v1) {
            Ok(v) => v,
            Err(e) => {
                assert(nt == 0) by { if nt >= 1 { assert(t == nt); } }
                return Err(e);
            },
        };
        let v2: Vec<usize> = vec![b, 1];
        assert(v2@ =~= seq![b, 1usize]);
        let flat2 = match self.reshape(flat, v2) {
            Ok(v) => v,
            Err(e) => {
                assert(nb == 0) by { if nb >= 1 { assert(b == nb); } }
                return Err(e);
            },
        };
        let v3: Vec<usize> = vec![b, t];
        assert(v3@ =~= seq![b, t]);
        assert(expand_ok(seq![b, 1usize], seq![b, t]));
        let flatbt = ok_id(self.expand(flat2, v3));
        let v4: Vec<usize> = vec![b, t];
        assert(v4@ =~= seq![b, t]);
        let upd = match self.reshape(updates, v4) {
            Ok(v) => v,
            Err(e) => {
                assert(nb == 0 || nt == 0) by {
                    if nb >= 1 && nt >= 1 { assert(b == nb && t == nt); }
                }
                return Err(e);
            },
        };
        let ghost gu = *self;
        let out = self.scatter_along(xr, flatbt, upd, 0, combine)?;
        proof {
            if nb == 0 || nt == 0 {
                assert(numel(xs) == numel(xs.take(k)) * nt);
                assert(nb * nt == 0) by (nonlinear_arith) requires nb == 0 || nt == 0;
                assert(b >= 1 && t >= 1);
                assert(b * t >= 1) by (nonlinear_arith) requires b >= 1, t >= 1;
            }
        }
        let res = self.reshape(out, xsh);
        proof {
            assert(self.nodes@[xr.0 as int] == gu.nodes@[xr.0 as int]);
            assert(self.nodes@[upd.0 as int] == gu.nodes@[upd.0 as int]);
        }
        res
    }
}

} // verus!
