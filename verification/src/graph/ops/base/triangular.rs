//! Diagonals and triangles of matrices: the main diagonal and trace, the diagonal
//! embedding of a vector, and lower/upper triangular parts (a host-built 0/1 mask).

use vstd::prelude::*;
use crate::dtype::DType;
use crate::error::Error;
use crate::graph::{Graph, NodeId, Op};
use crate::graph::infer::ceil_div;
use crate::graph::shape::{numel, ones, ones_vec, expand_ok, lemma_numel_single, lemma_numel_concat};
use crate::graph::ops::base::scalar::ok_id;
use crate::graph::ops::base::masks::{Grid, grid_storage, is_grid_const};

verus! {

/// `numel` of `ones(r)` with its last two dims set to `m` and `n` is `m * n`.
proof fn lemma_numel_trailing(r: nat, m: usize, n: usize)
    requires r >= 2,
    ensures numel(ones(r).update(r - 2, m).update(r - 1, n)) == m * n,
{
    let s = ones(r).update(r - 2, m).update(r - 1, n);
    crate::graph::shape::lemma_numel_ones((r - 2) as nat);
    assert(s =~= Seq::new((r - 2) as nat, |i: int| 1usize) + seq![m] + seq![n]);
    lemma_numel_concat(Seq::new((r - 2) as nat, |i: int| 1usize) + seq![m], seq![n]);
    lemma_numel_concat(Seq::new((r - 2) as nat, |i: int| 1usize), seq![m]);
    lemma_numel_single(m);
    lemma_numel_single(n);
}

/// Node `id` of `g` is the main diagonal of the `m x n` matrix `x`: `x` flattened, then
/// every `(n + 1)`-th element of its first `(k - 1)(n + 1) + 1`, `k = min(m, n)`.
pub open spec fn is_diagonal_of(g: Graph, id: NodeId, x: NodeId, m: usize, n: usize) -> bool {
    let flat = g.arg(id, 0);
    let k = if m <= n { m } else { n };
    &&& g.srcs(id) == seq![flat]
    &&& g.opn(id) matches Op::Slice { ranges } && ranges@ == seq![(0usize, ((k - 1) * (n + 1) + 1) as usize, (n + 1) as usize)]
    &&& g.srcs(flat) == seq![x] && (g.opn(flat) matches Op::Reshape { shape } && shape@ == seq![(m * n) as usize])
}

/// Node `id` of `g` is `x` times the broadcast triangle mask (`Grid::Tri`) of side `m x n`.
pub open spec fn is_masked_by_tri(g: Graph, id: NodeId, x: NodeId, m: usize, n: usize, diagonal: i64, lower: bool) -> bool {
    let mb = g.arg(id, 1);
    let e = if g.opn(mb) is Cast { g.arg(mb, 0) } else { mb };
    let mr = g.arg(e, 0);
    &&& g.node_is(id, Op::Mul, seq![x, mb])
    &&& g.opn(e) is Expand && g.srcs(e) == seq![mr]
    &&& g.opn(mr) is Reshape && g.srcs(mr).len() == 1
    &&& is_grid_const(g, g.arg(mr, 0), Grid::Tri { diagonal, lower }, m, n)
}

impl Graph {
    /// Main diagonal of a matrix `[M, N]` (`M, N >= 1`): `[min(M, N)]`, read with stride
    /// `N + 1` from the flattened matrix.
    pub fn diagonal(&mut self, x: NodeId) -> (r: Result<NodeId, Error>)
        requires
            old(self).wf(), old(self).room(2), old(self).valid(x),
            old(self).sh(x).len() >= 2, old(self).sh(x)[0] >= 1, old(self).sh(x)[1] >= 1,
            old(self).sh(x)[0] * old(self).sh(x)[1] <= usize::MAX, old(self).sh(x)[1] < usize::MAX,
            numel(old(self).sh(x)) <= usize::MAX,
        ensures
            final(self).wf(), final(self).grew(*old(self), 2),
            r is Ok <==> numel(old(self).sh(x)) == old(self).sh(x)[0] * old(self).sh(x)[1],
            r matches Ok(id) ==> final(self).valid(id) && final(self).dt(id) == old(self).dt(x)
                && final(self).sh(id) == seq![(if old(self).sh(x)[0] <= old(self).sh(x)[1] { old(self).sh(x)[0] } else { old(self).sh(x)[1] }) as usize],
            r is Err ==> *final(self) == *old(self),
            r matches Ok(id) ==> is_diagonal_of(*final(self), id, x, old(self).sh(x)[0], old(self).sh(x)[1]),
    {
        let sh = self.shape(x);
        let m = sh[0];
        let n = sh[1];
        let k = if m <= n { m } else { n };
        let mn = m * n;
        let v: Vec<usize> = vec![mn];
        assert(v@ =~= seq![mn]);
        proof { lemma_numel_single(mn); }
        let flat = self.reshape(x, v)?;
        assert((k - 1) * (n + 1) + 1 <= m * n) by (nonlinear_arith) requires k <= m, k <= n, k >= 1;
        let end = (k - 1) * (n + 1) + 1;
        let ranges: Vec<(usize, usize, usize)> = vec![(0, end, n + 1)];
        assert(ceil_div(end as int, n + 1) == k) by {
            assert(end + n + 1 - 1 == k * (n + 1)) by (nonlinear_arith) requires end == (k - 1) * (n + 1) + 1, k >= 1;
            vstd::arithmetic::div_mod::lemma_div_multiples_vanish(k as int, (n + 1) as int);
            assert(k * (n + 1) == (n + 1) * k) by (nonlinear_arith);
        }
        let ghost rg = ranges@;
        let r = self.slice_step(flat, ranges);
        assert(rg =~= seq![(0usize, end, (n + 1) as usize)]);
        assert(r is Ok);
        assert(crate::graph::ops::base::slicing::sliced(seq![(0usize, end, (n + 1) as usize)]) =~= seq![k]);
        r
    }

    /// Trace: the sum of the main diagonal.
    pub fn trace(&mut self, x: NodeId) -> (r: Result<NodeId, Error>)
        requires
            old(self).wf(), old(self).room(3), old(self).valid(x),
            old(self).sh(x).len() >= 2, old(self).sh(x)[0] >= 1, old(self).sh(x)[1] >= 1,
            old(self).sh(x)[0] * old(self).sh(x)[1] <= usize::MAX, old(self).sh(x)[1] < usize::MAX,
            numel(old(self).sh(x)) <= usize::MAX,
        ensures
            final(self).wf(), final(self).grew(*old(self), 3),
            r is Ok <==> numel(old(self).sh(x)) == old(self).sh(x)[0] * old(self).sh(x)[1] && old(self).dt(x).spec_is_arith(),
            r matches Ok(id) ==> final(self).valid(id) && final(self).dt(id) == old(self).dt(x)
                && final(self).sh(id) == Seq::<usize>::empty(),
            r matches Ok(id) ==> final(self).node_is(id, Op::Sum { axis: 0 }, seq![final(self).arg(id, 0)])
                && is_diagonal_of(*final(self), final(self).arg(id, 0), x, old(self).sh(x)[0], old(self).sh(x)[1]),
    {
        let d = self.diagonal(x)?;
        let ghost g1 = *self;
        let r = self.sum(d, 0);
        proof { g1.lemma_arg_kept(*self, d, 0); }
        proof {
            if r is Ok {
                assert(seq![self.sh(d)[0]].remove(0) =~= Seq::<usize>::empty());
            }
        }
        r
    }

    /// Diagonal matrices from vectors: `[.., N]` to `[.., N, N]`, `v` on the main diagonal
    /// (`v.unsqueeze(-1) * I`).
    #[verifier::spinoff_prover]
    #[verifier::rlimit(40)]
    pub fn diag_embed(&mut self, v: NodeId) -> (r: Result<NodeId, Error>)
        requires
            old(self).wf(), old(self).room(9), old(self).valid(v), old(self).sh(v).len() >= 1,
            numel(old(self).sh(v)) <= usize::MAX,
            old(self).sh(v).last() * old(self).sh(v).last() * 4 <= usize::MAX, old(self).sh(v).last() <= i64::MAX,
        ensures
            final(self).wf(), final(self).grew(*old(self), 9),
            r is Ok <==> old(self).dt(v).spec_is_arith(),
            r matches Ok(id) ==> final(self).valid(id) && final(self).dt(id) == old(self).dt(v)
                && final(self).sh(id) == old(self).sh(v).push(old(self).sh(v).last()),
            r matches Ok(id) ==> ({
                let g = *final(self);
                let vb = g.arg(id, 0);
                let eb = g.arg(id, 1);
                let er = g.arg(eb, 0);
                let e0 = g.arg(er, 0);
                let eye = if g.opn(e0) is Cast { g.arg(e0, 0) } else { e0 };
                let n = old(self).sh(v).last();
                &&& g.node_is(id, Op::Mul, seq![vb, eb])
                &&& g.opn(vb) is Expand && g.srcs(vb).len() == 1
                &&& g.opn(eb) is Expand && g.srcs(eb) == seq![er]
                &&& g.opn(er) is Reshape && g.srcs(er) == seq![e0]
                &&& is_grid_const(g, eye, Grid::Eye, n, n)
            }),
    {
        let sh = self.shape(v);
        let n = sh[sh.len() - 1];
        let vu = ok_id(self.unsqueeze(v, sh.len()));
        let mut full = self.shape(v);
        full.push(n);
        let fl = full.len();
        let ghost fs = full@;
        proof { crate::graph::shape::lemma_numel_insert_one(sh@, sh@.len() as int); }
        let vb = self.broadcast_to(vu, full);
        assert(vb is Ok) by {
            assert(crate::graph::shape::left_pad_ones(self.sh(vu), fs.len()) =~= self.sh(vu));
            assert(self.sh(vu) =~= sh@.push(1usize));
        }
        let vb = ok_id(vb);
        let eye = self.const_storage(grid_storage(Grid::Eye, n, n), vec![n, n]);
        let dt = self.dtype(v);
        let eye = if dt == DType::F32 { eye } else { self.cast(eye, dt) };
        let ghost l = fs.len();
        let mut er = ones_vec(fl);
        er.set(sh.len() - 1, n);
        er.set(sh.len(), n);
        proof {
            lemma_numel_trailing(l as nat, n, n);
            crate::graph::shape::lemma_numel_concat(seq![n], seq![n]);
            assert(seq![n] + seq![n] =~= seq![n, n]);
            lemma_numel_single(n);
            assert(n * n <= usize::MAX) by (nonlinear_arith) requires n * n * 4 <= usize::MAX;
        }
        let eye_r = ok_id(self.reshape(eye, er));
        let mut fullv = self.shape(v);
        fullv.push(n);
        let eye_b = self.expand(eye_r, fullv);
        assert(eye_b is Ok) by {
            assert(expand_ok(self.sh(eye_r), fs));
        }
        let eye_b = ok_id(eye_b);
        self.mul(vb, eye_b)
    }

    /// Keep the trailing `[M, N]` triangle (`lower`: `j <= i + diagonal`, else
    /// `j >= i + diagonal`), zero elsewhere.
    #[verifier::spinoff_prover]
    #[verifier::rlimit(40)]
    fn triangular(&mut self, x: NodeId, diagonal: i64, lower: bool) -> (r: Result<NodeId, Error>)
        requires
            old(self).wf(), old(self).room(5), old(self).valid(x), old(self).sh(x).len() >= 2,
            ({
                let s = old(self).sh(x);
                let m = s[s.len() - 2];
                let n = s[s.len() - 1];
                &&& m * n * 4 <= usize::MAX && m <= i64::MAX && n <= i64::MAX && m + diagonal <= i64::MAX
            }),
        ensures
            final(self).wf(), final(self).grew(*old(self), 5),
            r is Ok <==> old(self).dt(x).spec_is_arith(),
            r matches Ok(id) ==> final(self).valid(id) && final(self).dt(id) == old(self).dt(x)
                && final(self).sh(id) == old(self).sh(x),
            r matches Ok(id) ==> is_masked_by_tri(*final(self), id, x, old(self).sh(x)[old(self).sh(x).len() - 2],
                old(self).sh(x)[old(self).sh(x).len() - 1], diagonal, lower),
    {
        let sh = self.shape(x);
        let r = sh.len();
        let m = sh[r - 2];
        let n = sh[r - 1];
        let mask = self.const_storage(grid_storage(Grid::Tri { diagonal, lower }, m, n), vec![m, n]);
        let mut full = ones_vec(r);
        full.set(r - 2, m);
        full.set(r - 1, n);
        proof {
            lemma_numel_trailing(r as nat, m, n);
            crate::graph::shape::lemma_numel_concat(seq![m], seq![n]);
            assert(seq![m] + seq![n] =~= seq![m, n]);
            lemma_numel_single(m);
            lemma_numel_single(n);
            assert(m * n <= usize::MAX) by (nonlinear_arith) requires m * n * 4 <= usize::MAX;
        }
        let mr = ok_id(self.reshape(mask, full));
        let mb = self.expand(mr, sh);
        assert(mb is Ok) by { assert(expand_ok(self.sh(mr), sh@)); }
        let mb = ok_id(mb);
        let dt = self.dtype(x);
        let mb = if dt == DType::F32 { mb } else { self.cast(mb, dt) };
        self.mul(x, mb)
    }

    /// Lower-triangular part: zeros above the `diagonal`-th diagonal.
    pub fn tril(&mut self, x: NodeId, diagonal: i64) -> (r: Result<NodeId, Error>)
        requires
            old(self).wf(), old(self).room(5), old(self).valid(x), old(self).sh(x).len() >= 2,
            ({
                let s = old(self).sh(x);
                let m = s[s.len() - 2];
                let n = s[s.len() - 1];
                &&& m * n * 4 <= usize::MAX && m <= i64::MAX && n <= i64::MAX && m + diagonal <= i64::MAX
            }),
        ensures
            final(self).wf(), final(self).grew(*old(self), 5),
            r is Ok <==> old(self).dt(x).spec_is_arith(),
            r matches Ok(id) ==> final(self).valid(id) && final(self).dt(id) == old(self).dt(x)
                && final(self).sh(id) == old(self).sh(x),
            r matches Ok(id) ==> is_masked_by_tri(*final(self), id, x, old(self).sh(x)[old(self).sh(x).len() - 2],
                old(self).sh(x)[old(self).sh(x).len() - 1], diagonal, true),
    {
        self.triangular(x, diagonal, true)
    }

    /// Upper-triangular part: zeros below the `diagonal`-th diagonal.
    pub fn triu(&mut self, x: NodeId, diagonal: i64) -> (r: Result<NodeId, Error>)
        requires
            old(self).wf(), old(self).room(5), old(self).valid(x), old(self).sh(x).len() >= 2,
            ({
                let s = old(self).sh(x);
                let m = s[s.len() - 2];
                let n = s[s.len() - 1];
                &&& m * n * 4 <= usize::MAX && m <= i64::MAX && n <= i64::MAX && m + diagonal <= i64::MAX
            }),
        ensures
            final(self).wf(), final(self).grew(*old(self), 5),
            r is Ok <==> old(self).dt(x).spec_is_arith(),
            r matches Ok(id) ==> final(self).valid(id) && final(self).dt(id) == old(self).dt(x)
                && final(self).sh(id) == old(self).sh(x),
            r matches Ok(id) ==> is_masked_by_tri(*final(self), id, x, old(self).sh(x)[old(self).sh(x).len() - 2],
                old(self).sh(x)[old(self).sh(x).len() - 1], diagonal, false),
    {
        self.triangular(x, diagonal, false)
    }
}

} // verus!
