//! Selection with a static output size `k`: compress, masked_select, nonzero, unique. A
//! running count of the mask gives each kept element its output slot, a scatter places it,
//! and masked-out elements go to a dump slot past the end; fewer than `k` hits leave zeros,
//! more drop the surplus.

use vstd::prelude::*;
use crate::dtype::DType;
use crate::error::{Error, ErrorKind};
use crate::graph::{Graph, NodeId, Op, ScatterOp};
use crate::graph::f32bits::{int_f32_bits, exact_int_bits};
use crate::graph::shape::{numel, shapes_equal, lemma_numel_single};
use crate::graph::ops::base::scalar::{ok_id, F32_ONE, F32_ZERO, is_scalar_of, lemma_scalar_kept};
use crate::graph::ops::base::scan::{scan_fits, is_cumsum_of, lemma_cumsum_kept};
use crate::graph::ops::base::join::is_piece;
use crate::graph::ops::base::signal::{f32_fill, f32_fill_bytes, is_diff_of};
use crate::graph::ops::base::compare::{is_not_of, lemma_not_kept};
use crate::graph::ops::base::stats::{is_sorted_of, lemma_sorted_kept};
use crate::graph::ops::base::repeat::{is_roll_of, lemma_roll_kept};

verus! {

/// A one-axis length `n` fits the running count: `n x n` f32 and an `i64` index.
pub open spec fn count_fits(n: int) -> bool {
    n * n * 4 <= usize::MAX && n <= i64::MAX
}

/// Node `id` of `g` is the unit float `k` spread like its sibling: exactly `k` as long as `k`
/// is below `2^24`.
pub open spec fn is_count_scalar(g: Graph, id: NodeId, k: usize) -> bool {
    exists|b: u32| #[trigger] is_scalar_of(g, id, b)
        && (k == 0 ==> b == 0) && (1 <= k < 0x100_0000 ==> exact_int_bits(b, k as int))
}

/// Node `id` of `g` keeps, in order, the elements of the one-axis `x` (length `n`) where the
/// BOOL `mask` holds, in `[k]`: each kept element goes to its slot, the running count of the
/// mask less one, the others to slot `k`, scattered over `k + 1` zeros of which the first `k`
/// are taken.
pub open spec fn is_compress_of(g: Graph, id: NodeId, mask: NodeId, x: NodeId, n: usize, k: usize) -> bool {
    let scat = g.arg(id, 0);
    let z = g.arg(scat, 0);
    let zc = if g.opn(z) is Cast { g.arg(z, 0) } else { z };
    let idx = g.arg(scat, 1);
    let posi = g.arg(idx, 1);
    let posf = g.arg(posi, 0);
    let cs = g.arg(posf, 0);
    let one = g.arg(g.arg(posf, 1), 0);
    let mf = g.arg(cs, 0);
    &&& is_piece(g, id, scat, seq![(k + 1) as usize], 0, 0, k as int)
    &&& g.node_is(scat, Op::ScatterAlong { axis: 0, combine: ScatterOp::Assign }, seq![z, idx, x])
    &&& (g.opn(z) is Cast ==> g.srcs(z).len() == 1)
    &&& g.opn(zc) matches Op::Const { data, shape } && shape@ == seq![(k + 1) as usize]
        && data.spec_dtype() == DType::F32 && data.spec_bytes() == f32_fill_bytes((k + 1) as nat, F32_ZERO)
    &&& g.node_is(idx, Op::Where, seq![mask, posi, g.arg(idx, 2)])
    &&& is_count_scalar(g, g.arg(idx, 2), k)
    &&& g.opn(posi) == (Op::Cast { to: DType::I64 }) && g.srcs(posi).len() == 1
    &&& is_diff_of(g, posf, cs, one) && is_scalar_of(g, one, F32_ONE)
    &&& is_cumsum_of(g, cs, mf, seq![n], 0)
    &&& g.node_is(mf, Op::Cast { to: DType::F32 }, seq![mask])
}

/// The length of a tensor of shape `s` flattened.
pub open spec fn flat_len(s: Seq<usize>) -> usize {
    numel(s) as usize
}

/// Node `id` of `g` is `x` flattened to `[n]`.
pub open spec fn is_flat_of(g: Graph, id: NodeId, x: NodeId, n: usize) -> bool {
    g.srcs(id) == seq![x] && (g.opn(id) matches Op::Reshape { shape } && shape@ == seq![n])
}

impl Graph {
    /// Up to `k` elements of the one-axis `x` where the BOOL `mask` (same shape) holds, in
    /// order, into `[k]` (zero-padded).
    #[verifier::spinoff_prover]
    #[verifier::rlimit(40)]
    pub fn compress(&mut self, mask: NodeId, x: NodeId, k: usize) -> (r: Result<NodeId, Error>)
        requires
            old(self).wf(), old(self).room(20), old(self).valid(mask), old(self).valid(x),
            (k + 1) * 4 <= usize::MAX,
            old(self).sh(x).len() == 1 ==> count_fits(old(self).sh(x)[0] as int),
        ensures
            final(self).wf(), final(self).grew(*old(self), 20),
            r is Ok <==> old(self).sh(x).len() == 1 && old(self).sh(mask) == old(self).sh(x)
                && old(self).dt(mask) == DType::BOOL,
            r matches Ok(id) ==> final(self).valid(id) && final(self).sh(id) == seq![k]
                && final(self).dt(id) == old(self).dt(x),
            r matches Ok(id) ==> is_compress_of(*final(self), id, mask, x, old(self).sh(x)[0], k),
    {
        let sh = self.shape(x);
        let msh = self.shape(mask);
        if sh.len() != 1 || !shapes_equal(&msh, &sh) {
            return Err(Error::new("compress", ErrorKind::ShapeMismatch));
        }
        assert(scan_fits(sh@, 0));
        let ghost n = sh@[0];
        let mf = self.cast(mask, DType::F32);
        assert(self.sh(mf) =~= seq![n]);
        let ghost g1 = *self;
        let cs = ok_id(self.cumsum(mf, 0));
        let ghost g2 = *self;
        let one = self.scalar(cs, F32_ONE);
        let ghost g3 = *self;
        let posf = ok_id(self.sub(cs, one));
        let ghost g4 = *self;
        let posi = self.cast(posf, DType::I64);
        let ghost g5 = *self;
        let kb = int_f32_bits(k as u64);
        let kidx = self.scalar(posi, kb);
        let ghost g6 = *self;
        let idx = self.select(mask, posi, kidx)?;
        let ghost g7 = *self;
        let xdt = self.dtype(x);
        let kk: Vec<usize> = vec![k + 1];
        assert(kk@ =~= seq![(k + 1) as usize]);
        let z0 = self.const_storage(f32_fill(k + 1, F32_ZERO), kk);
        let ghost g8 = *self;
        let z = if xdt == DType::F32 { z0 } else { self.cast(z0, xdt) };
        let ghost g9 = *self;
        let scat = ok_id(self.scatter_along(z, idx, x, 0, ScatterOp::Assign));
        let ghost g10 = *self;
        let rg: Vec<(usize, usize)> = vec![(0, k)];
        assert(self.sh(scat) =~= seq![(k + 1) as usize]);
        let res = ok_id(self.slice(scat, rg));
        assert(rg@.map_values(|q: (usize, usize)| (q.1 - q.0) as usize) =~= seq![k]);
        proof {
            g1.lemma_node_kept(*self, mf);
            lemma_cumsum_kept(g2, *self, cs, mf, seq![n], 0);
            lemma_scalar_kept(g3, *self, one, F32_ONE);
            g4.lemma_node_kept(*self, posf);
            g4.lemma_arg_kept(*self, posf, 1);
            g5.lemma_node_kept(*self, posi);
            lemma_scalar_kept(g6, *self, kidx, kb);
            assert(is_scalar_of(*self, kidx, kb));
            g7.lemma_node_kept(*self, idx);
            g8.lemma_node_kept(*self, z0);
            g9.lemma_node_kept(*self, z);
            g10.lemma_node_kept(*self, scat);
            assert(crate::graph::ops::base::signal::axis_window(seq![(k + 1) as usize], 0, 0, k)
                .map_values(|q: (usize, usize)| (q.0, q.1, 1usize)) =~= rg@.map_values(|q: (usize, usize)| (q.0, q.1, 1usize)));
        }
        Ok(res)
    }

    /// Up to `k` elements of `x` where the BOOL `mask` holds, both flattened: `[k]`.
    pub fn masked_select(&mut self, x: NodeId, mask: NodeId, k: usize) -> (r: Result<NodeId, Error>)
        requires
            old(self).wf(), old(self).room(22), old(self).valid(x), old(self).valid(mask),
            numel(old(self).sh(x)) <= usize::MAX, numel(old(self).sh(mask)) <= usize::MAX,
            (k + 1) * 4 <= usize::MAX,
            numel(old(self).sh(mask)) == numel(old(self).sh(x)) ==> count_fits(numel(old(self).sh(x))),
        ensures
            final(self).wf(), final(self).grew(*old(self), 22),
            r is Ok <==> numel(old(self).sh(mask)) == numel(old(self).sh(x)) && old(self).dt(mask) == DType::BOOL,
            r matches Ok(id) ==> final(self).valid(id) && final(self).sh(id) == seq![k]
                && final(self).dt(id) == old(self).dt(x),
            r matches Ok(id) ==> ({
                let g = *final(self);
                let scat = g.arg(id, 0);
                let xf = g.arg(scat, 2);
                let mf = g.arg(g.arg(scat, 1), 0);
                let n = numel(old(self).sh(x)) as usize;
                &&& is_compress_of(g, id, mf, xf, n, k)
                &&& is_flat_of(g, xf, x, n) && is_flat_of(g, mf, mask, n)
            }),
    {
        let n = self.numel_of(x);
        let v1: Vec<usize> = vec![n];
        let v2: Vec<usize> = vec![n];
        proof {
            lemma_numel_single(n);
            assert(v1@ =~= seq![n] && v2@ =~= seq![n]);
        }
        let xf = ok_id(self.reshape(x, v1));
        let ghost g1 = *self;
        let mf = self.reshape(mask, v2)?;
        let ghost g2 = *self;
        let r = self.compress(mf, xf, k);
        proof {
            if r is Ok {
                g1.lemma_node_kept(*self, xf);
                g2.lemma_node_kept(*self, mf);
            }
        }
        r
    }

    /// Flat indices of up to `k` nonzero elements of `x`: `[k]` I64 (non-complex).
    #[verifier::spinoff_prover]
    pub fn nonzero(&mut self, x: NodeId, k: usize) -> (r: Result<NodeId, Error>)
        requires
            old(self).wf(), old(self).room(29), old(self).valid(x),
            numel(old(self).sh(x)) <= usize::MAX, (k + 1) * 4 <= usize::MAX,
            count_fits(numel(old(self).sh(x))),
        ensures
            final(self).wf(), final(self).grew(*old(self), 29),
            r is Ok <==> !old(self).dt(x).spec_is_complex(),
            r matches Ok(id) ==> final(self).valid(id) && final(self).sh(id) == seq![k]
                && final(self).dt(id) == DType::I64,
            r matches Ok(id) ==> ({
                let g = *final(self);
                let scat = g.arg(id, 0);
                let io = g.arg(scat, 2);
                let mask = g.arg(g.arg(scat, 1), 0);
                let eq = g.arg(mask, 0);
                let xf = g.arg(eq, 0);
                let n = numel(old(self).sh(x)) as usize;
                &&& is_compress_of(g, id, mask, io, n, k)
                &&& g.opn(io) matches Op::Iota { shape, axis, dtype } && shape@ == seq![n] && axis == 0 && dtype == DType::I64
                &&& is_not_of(g, mask, eq)
                &&& g.node_is(eq, Op::CmpEq, seq![xf, g.arg(eq, 1)]) && is_scalar_of(g, g.arg(eq, 1), F32_ZERO)
                &&& is_flat_of(g, xf, x, n)
            }),
    {
        let n = self.numel_of(x);
        let v1: Vec<usize> = vec![n];
        let v2: Vec<usize> = vec![n];
        proof {
            lemma_numel_single(n);
            assert(v1@ =~= seq![n] && v2@ =~= seq![n]);
        }
        let xf = ok_id(self.reshape(x, v1));
        let ghost g1 = *self;
        let z = self.zeros_like(xf);
        let ghost g2 = *self;
        let mask = self.ne(xf, z)?;
        let ghost g3 = *self;
        let idx = ok_id(self.iota(v2, 0, DType::I64));
        let ghost g4 = *self;
        let r = self.compress(mask, idx, k);
        proof {
            if r is Ok {
                g1.lemma_node_kept(*self, xf);
                lemma_scalar_kept(g2, *self, z, F32_ZERO);
                lemma_not_kept(g3, *self, mask, g3.arg(mask, 0));
                g3.lemma_node_kept(*self, g3.arg(mask, 0));
                g4.lemma_node_kept(*self, idx);
            }
        }
        r
    }

    /// Sorted distinct values of `x`, flattened, into `[k]` (numeric): after a sort, an
    /// element is kept where it differs from its predecessor (the first always).
    #[verifier::spinoff_prover]
    #[verifier::rlimit(40)]
    pub fn unique(&mut self, x: NodeId, k: usize) -> (r: Result<NodeId, Error>)
        requires
            old(self).wf(), old(self).room(39), old(self).valid(x),
            numel(old(self).sh(x)) <= usize::MAX, (k + 1) * 4 <= usize::MAX,
            count_fits(numel(old(self).sh(x))),
            old(self).dt(x).spec_is_numeric() ==> numel(old(self).sh(x)) >= 1,
        ensures
            final(self).wf(), final(self).grew(*old(self), 39),
            r is Ok <==> old(self).dt(x).spec_is_numeric(),
            r matches Ok(id) ==> final(self).valid(id) && final(self).sh(id) == seq![k]
                && final(self).dt(id) == old(self).dt(x),
            r matches Ok(id) ==> ({
                let g = *final(self);
                let scat = g.arg(id, 0);
                let srt = g.arg(scat, 2);
                let mask = g.arg(g.arg(scat, 1), 0);
                let neq = g.arg(mask, 0);
                let first = g.arg(mask, 1);
                let eq = g.arg(neq, 0);
                let io = g.arg(first, 0);
                let xf = g.arg(srt, 0);
                let n = flat_len(old(self).sh(x));
                &&& is_compress_of(g, id, mask, srt, n, k)
                &&& is_sorted_of(g, srt, xf, 0) && is_flat_of(g, xf, x, n)
                &&& g.node_is(mask, Op::Or, seq![neq, first])
                &&& is_not_of(g, neq, eq) && g.node_is(eq, Op::CmpEq, seq![srt, g.arg(eq, 1)])
                &&& is_roll_of(g, g.arg(eq, 1), srt, seq![n], 1, 0)
                &&& g.node_is(first, Op::CmpEq, seq![io, g.arg(first, 1)]) && is_scalar_of(g, g.arg(first, 1), F32_ZERO)
                &&& g.opn(io) matches Op::Iota { shape, axis, dtype } && shape@ == seq![n] && axis == 0 && dtype == DType::I64
            }),
    {
        let n = self.numel_of(x);
        let v1: Vec<usize> = vec![n];
        let v2: Vec<usize> = vec![n];
        proof {
            lemma_numel_single(n);
            assert(v1@ =~= seq![n] && v2@ =~= seq![n]);
        }
        let xf = ok_id(self.reshape(x, v1));
        let ghost g1 = *self;
        let s = self.sort(xf, 0, false)?;
        let ghost g2 = *self;
        let prev = ok_id(self.roll(s, 1, 0));
        let ghost g3 = *self;
        let neq = ok_id(self.ne(s, prev));
        let ghost g4 = *self;
        let idx = ok_id(self.iota(v2, 0, DType::I64));
        let ghost g5 = *self;
        let zero = self.scalar(idx, F32_ZERO);
        let ghost g6 = *self;
        let is0 = ok_id(self.cmp_eq(idx, zero));
        let ghost g7 = *self;
        let mask = ok_id(self.or(neq, is0));
        let ghost g8 = *self;
        let r = self.compress(mask, s, k);
        proof {
            if r is Ok {
                g1.lemma_node_kept(*self, xf);
                assert(is_sorted_of(g2, s, xf, 0));
                lemma_sorted_kept(g2, *self, s, xf, 0);
                assert(g2.sh(s) =~= seq![n]);
                lemma_roll_kept(g3, *self, prev, s, seq![n], 1, 0);
                lemma_not_kept(g4, *self, neq, g4.arg(neq, 0));
                g4.lemma_node_kept(*self, g4.arg(neq, 0));
                g5.lemma_node_kept(*self, idx);
                lemma_scalar_kept(g6, *self, zero, F32_ZERO);
                g7.lemma_node_kept(*self, is0);
                g8.lemma_node_kept(*self, mask);
            }
        }
        r
    }

    /// The element count of `x`, which fits in a `usize`.
    fn numel_of(&self, x: NodeId) -> (n: usize)
        requires self.valid(x), numel(self.sh(x)) <= usize::MAX,
        ensures n == numel(self.sh(x)),
    {
        match crate::graph::shape::numel_checked(&self.nodes[x.0 as usize].shape) {
            Some(n) => n,
            None => 0,
        }
    }
}

} // verus!
