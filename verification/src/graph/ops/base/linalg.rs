//! Dense linear algebra: the LU / Cholesky / eigen / QR primitives, batched matmul over the
//! trailing two axes, and the solvers built on them (inverse, least squares,
//! pseudo-inverse, matrix exponential, SVD).

use vstd::prelude::*;
use crate::dtype::DType;
use crate::error::{Error, ErrorKind};
use crate::graph::{Graph, NodeId, Op};
use crate::graph::infer::{ins_of, dot_shape, free_upto, contains_usize};
use crate::graph::shape::{numel, ones_vec, expand_ok, swap_dims};
use crate::graph::ops::base::scalar::ok_id;
use crate::graph::ops::base::reduce::{recip_scalar, lemma_recip_scalar_kept};
use crate::graph::ops::base::masks::{Grid, grid_storage, is_grid_const};
use crate::graph::ops::base::contract::dot_ok;

verus! {

/// `[.., N, N]`: rank at least two with equal trailing dims.
pub open spec fn square(s: Seq<usize>) -> bool {
    s.len() >= 2 && s[s.len() - 1] == s[s.len() - 2]
}

/// Single or double precision real.
pub open spec fn f32_or_f64(d: DType) -> bool {
    d == DType::F32 || d == DType::F64
}

/// `b` (`[.., N, K]`) matches the square `a` (`[.., N, N]`) for `solve`.
pub open spec fn solve_shapes(a: Seq<usize>, b: Seq<usize>) -> bool {
    &&& square(a)
    &&& b.len() == a.len()
    &&& b[b.len() - 2] == a[a.len() - 1]
    &&& b.take(b.len() - 2) == a.take(a.len() - 2)
}

/// `0, 1, .., n - 1`.
pub open spec fn iota_seq(n: nat) -> Seq<usize> {
    Seq::new(n, |i: int| i as usize)
}

/// Batched matmul shapes: `[.., m, k] @ [.., k, n]` with equal batch dims.
pub open spec fn bmm_shapes(a: Seq<usize>, b: Seq<usize>) -> bool {
    &&& a.len() >= 2
    &&& b.len() == a.len()
    &&& b.take(b.len() - 2) == a.take(a.len() - 2)
    &&& a[a.len() - 1] == b[b.len() - 2]
}

/// The batched matmul result shape `[.., m, n]`.
pub open spec fn bmm_shape(a: Seq<usize>, b: Seq<usize>) -> Seq<usize> {
    a.take(a.len() - 2).push(a[a.len() - 2]).push(b[b.len() - 1])
}

/// The axes below `k` that are neither batch (`< r - 2`) nor `c`.
pub proof fn lemma_free_bmm(r: nat, c: usize, k: nat)
    requires r >= 2, r - 2 <= c < r, k <= r, r <= usize::MAX,
    ensures free_upto(iota_seq((r - 2) as nat), seq![c], k)
        == Seq::new(if k <= r - 2 { 0 } else if k <= c { (k - (r - 2)) as nat } else { (k - (r - 2) - 1) as nat },
            |i: int| if (r - 2) + i < c { ((r - 2) + i) as usize } else { ((r - 2) + i + 1) as usize }),
    decreases k,
{
    if k > 0 {
        lemma_free_bmm(r, c, (k - 1) as nat);
        let a = (k - 1) as usize;
        let b = iota_seq((r - 2) as nat);
        if a < r - 2 {
            assert(b[a as int] == a);
            assert(contains_usize(b, a));
        } else {
            assert(!contains_usize(b, a));
            if a == c {
                assert(seq![c][0] == c);
                assert(contains_usize(seq![c], a));
            } else {
                assert(!contains_usize(seq![c], a)) by { assert(seq![c][0] == c); }
            }
        }
        let f = |i: int| if (r - 2) + i < c { ((r - 2) + i) as usize } else { ((r - 2) + i + 1) as usize };
        let len = |k2: nat| if k2 <= r - 2 { 0 } else if k2 <= c { (k2 - (r - 2)) as nat } else { (k2 - (r - 2) - 1) as nat };
        let prev = Seq::new(len((k - 1) as nat), f);
        let want = Seq::new(len(k), f);
        if a < r - 2 || a == c {
            assert(prev =~= want);
        } else {
            assert(prev.push(a) =~= want);
        }
    }
}

/// The batched matmul shape through `dot_general`.
proof fn lemma_bmm_shape(a: Seq<usize>, b: Seq<usize>)
    requires a.len() >= 2, b.len() == a.len(), a.len() <= usize::MAX,
    ensures dot_shape(a, b, seq![(a.len() - 1) as usize], seq![(a.len() - 2) as usize],
        iota_seq((a.len() - 2) as nat), iota_seq((a.len() - 2) as nat)) == bmm_shape(a, b),
{
    let r = a.len();
    lemma_free_bmm(r, (r - 1) as usize, r);
    lemma_free_bmm(r, (r - 2) as usize, r);
    let bt = iota_seq((r - 2) as nat);
    let lf = free_upto(bt, seq![(r - 1) as usize], r);
    let rf = free_upto(bt, seq![(r - 2) as usize], r);
    assert(lf =~= seq![(r - 2) as usize]);
    assert(rf =~= seq![(r - 1) as usize]);
    assert(bt.map_values(|i: usize| a[i as int]) =~= a.take(r - 2));
    let out = dot_shape(a, b, seq![(r - 1) as usize], seq![(r - 2) as usize], bt, bt);
    assert(out =~= bmm_shape(a, b));
}

/// Axis `r - 2 + t` of the trailing pair, and the other one.
pub open spec fn last2(r: nat, t: bool) -> int {
    if t { r - 1 } else { r - 2 }
}

/// The shape of a batched contraction over the trailing pair through `dot_general`.
proof fn lemma_dot_last2(a: Seq<usize>, b: Seq<usize>, ta: bool, tb: bool)
    requires a.len() >= 2, b.len() == a.len(), a.len() <= usize::MAX,
    ensures dot_shape(a, b, seq![last2(a.len(), ta) as usize], seq![last2(a.len(), tb) as usize],
        iota_seq((a.len() - 2) as nat), iota_seq((a.len() - 2) as nat))
        == a.take(a.len() - 2).push(a[last2(a.len(), !ta)]).push(b[last2(b.len(), !tb)]),
{
    let r = a.len();
    let ca = last2(r, ta) as usize;
    let cb = last2(r, tb) as usize;
    lemma_free_bmm(r, ca, r);
    lemma_free_bmm(r, cb, r);
    let bt = iota_seq((r - 2) as nat);
    let lf = free_upto(bt, seq![ca], r);
    let rf = free_upto(bt, seq![cb], r);
    assert(lf =~= seq![last2(r, !ta) as usize]);
    assert(rf =~= seq![last2(r, !tb) as usize]);
    assert(bt.map_values(|i: usize| a[i as int]) =~= a.take(r - 2));
    let out = dot_shape(a, b, seq![ca], seq![cb], bt, bt);
    assert(out =~= a.take(r - 2).push(a[last2(r, !ta)]).push(b[last2(r, !tb)]));
}

/// Two trailing axes multiply the element count by their sizes.
pub proof fn lemma_numel_push2(b: Seq<usize>, x: usize, y: usize)
    ensures numel(b.push(x).push(y)) == numel(b) * x * y,
{
    assert(b.push(x).push(y).drop_last() =~= b.push(x));
    assert(b.push(x).drop_last() =~= b);
    assert(numel(b.push(x)) == numel(b) * x);
    assert(numel(b.push(x).push(y)) == numel(b.push(x)) * y);
}

/// Node `e` of `g` is the `n x n` identity (converted to the dtype when needed), given the
/// batch axes and broadcast.
pub open spec fn is_eye_of(g: Graph, e: NodeId, n: usize) -> bool {
    let er = g.arg(e, 0);
    let c0 = g.arg(er, 0);
    let c = if g.opn(c0) is Cast { g.arg(c0, 0) } else { c0 };
    &&& g.valid(e) && g.opn(e) is Expand && g.srcs(e).len() == 1
    &&& g.opn(er) is Reshape && g.srcs(er) == seq![c0]
    &&& (g.opn(c0) is Cast ==> g.srcs(c0).len() == 1)
    &&& is_grid_const(g, c, Grid::Eye, n, n)
}

/// An identity stays one as the graph grows.
pub proof fn lemma_eye_kept(g0: Graph, g1: Graph, e: NodeId, n: usize)
    requires g0.wf(), is_eye_of(g0, e, n), g1.extends(g0),
    ensures is_eye_of(g1, e, n),
{
    g0.lemma_node_kept(g1, e);
    g0.lemma_arg_kept(g1, e, 0);
    let er = g0.arg(e, 0);
    g0.lemma_arg_kept(g1, er, 0);
    let c0 = g0.arg(er, 0);
    if g0.opn(c0) is Cast {
        g0.lemma_arg_kept(g1, c0, 0);
    }
}

/// Node `term` of `g` is `A^k / k!` built from `e` (the identity) and `a`: for `k >= 1` the
/// contraction of the previous term with `a`, times the scalar `1 / k`.
pub open spec fn power_over_factorial(g: Graph, term: NodeId, e: NodeId, a: NodeId, k: nat) -> bool
    decreases k,
{
    if k == 0 {
        term == e
    } else {
        let at = g.arg(term, 0);
        &&& g.node_is(term, Op::Mul, seq![at, g.arg(term, 1)]) && recip_scalar(g, g.arg(term, 1), k as int)
        &&& g.valid(at) && g.opn(at) is DotGeneral && g.srcs(at) == seq![g.arg(at, 0), a]
        &&& power_over_factorial(g, g.arg(at, 0), e, a, (k - 1) as nat)
    }
}

/// Node `acc` of `g` is the Taylor sum `sum_{j <= k} A^j / j!` from `e` and `a`, `term` being
/// its last term `A^k / k!`.
pub open spec fn taylor_upto(g: Graph, acc: NodeId, term: NodeId, e: NodeId, a: NodeId, k: nat) -> bool
    decreases k,
{
    if k == 0 {
        acc == e && term == e
    } else {
        let at = g.arg(term, 0);
        &&& g.node_is(acc, Op::Add, seq![g.arg(acc, 0), term])
        &&& g.node_is(term, Op::Mul, seq![at, g.arg(term, 1)]) && recip_scalar(g, g.arg(term, 1), k as int)
        &&& g.valid(at) && g.opn(at) is DotGeneral && g.srcs(at) == seq![g.arg(at, 0), a]
        &&& taylor_upto(g, g.arg(acc, 0), g.arg(at, 0), e, a, (k - 1) as nat)
    }
}

/// A Taylor sum stays one as the graph grows.
pub proof fn lemma_taylor_kept(g0: Graph, g1: Graph, acc: NodeId, term: NodeId, e: NodeId, a: NodeId, k: nat)
    requires g0.wf(), taylor_upto(g0, acc, term, e, a, k), g1.extends(g0),
    ensures taylor_upto(g1, acc, term, e, a, k),
    decreases k,
{
    if k > 0 {
        let at = g0.arg(term, 0);
        g0.lemma_node_kept(g1, acc);
        g0.lemma_node_kept(g1, term);
        g0.lemma_arg_kept(g1, term, 1);
        lemma_recip_scalar_kept(g0, g1, g0.arg(term, 1), k as int);
        g0.lemma_node_kept(g1, at);
        lemma_taylor_kept(g0, g1, g0.arg(acc, 0), g0.arg(at, 0), e, a, (k - 1) as nat);
    }
}

/// Every term of the matrix-exponential series is a power of `a` over a factorial: the `k`-th
/// term is `k` contractions with `a`, each followed by a product with the scalar `1 / j`, so
/// it stands for `A^k / k!` (not `A^k`), and the sum adds one such term per order.
pub proof fn law_taylor_terms_are_powers_over_factorials(g: Graph, acc: NodeId, term: NodeId, e: NodeId, a: NodeId, k: nat)
    requires taylor_upto(g, acc, term, e, a, k),
    ensures power_over_factorial(g, term, e, a, k),
    decreases k,
{
    if k > 0 {
        let at = g.arg(term, 0);
        law_taylor_terms_are_powers_over_factorials(g, g.arg(acc, 0), g.arg(at, 0), e, a, (k - 1) as nat);
    }
}

impl Graph {
    /// Solve `A X = B` per batch (LU with partial pivoting): `a` `[.., N, N]`, `b` `[.., N, K]`,
    /// both F32 or both F64.
    #[verifier::loop_isolation(false)]
    pub fn solve(&mut self, a: NodeId, b: NodeId) -> (r: Result<NodeId, Error>)
        requires old(self).wf(), old(self).room(1), old(self).valid(a), old(self).valid(b),
        ensures
            final(self).wf(), final(self).grew(*old(self), 1),
            r is Ok <==> solve_shapes(old(self).sh(a), old(self).sh(b)) && f32_or_f64(old(self).dt(a))
                && old(self).dt(a) == old(self).dt(b),
            r matches Ok(id) ==> final(self).valid(id) && final(self).sh(id) == old(self).sh(b)
                && final(self).dt(id) == old(self).dt(a),
            r matches Ok(id) ==> final(self).pushed(*old(self), id, Op::Solve, seq![a, b]),
            r is Err ==> *final(self) == *old(self),
    {
        let ash = self.shape(a);
        let bsh = self.shape(b);
        let ra = ash.len();
        if ra < 2 || ash[ra - 1] != ash[ra - 2] {
            return Err(Error::new("solve", ErrorKind::Invalid));
        }
        let n = ash[ra - 1];
        let rb = bsh.len();
        if rb != ra || bsh[rb - 2] != n {
            return Err(Error::new("solve", ErrorKind::Invalid));
        }
        let mut k: usize = 0;
        while k < ra - 2
            invariant k <= ra - 2, ra == rb, ra == ash@.len(), rb == bsh@.len(), forall|j: int| 0 <= j < k ==> ash@[j] == bsh@[j],
            decreases ra - 2 - k,
        {
            if ash[k] != bsh[k] {
                assert(bsh@.take(rb - 2)[k as int] != ash@.take(ra - 2)[k as int]);
                return Err(Error::new("solve", ErrorKind::Invalid));
            }
            k = k + 1;
        }
        assert(bsh@.take(rb - 2) =~= ash@.take(ra - 2));
        let dt = self.dtype(a);
        if dt != DType::F32 && dt != DType::F64 {
            return Err(Error::new("solve", ErrorKind::DTypeClass(dt)));
        }
        if self.dtype(b) != dt {
            return Err(Error::new("solve", ErrorKind::DTypeMismatch(dt, self.dtype(b))));
        }
        let v = vec![a, b];
        assert(v@ =~= seq![a, b]);
        assert(ins_of(self.nodes@, v@)[1] == (self.sh(b), self.dt(b)));
        assert(ins_of(self.nodes@, v@)[0] == (self.sh(a), self.dt(a)));
        Ok(self.push(Op::Solve, v))
    }

    /// Push a one-source linear-algebra op over a square F32/F64 `a`.
    fn push_square(&mut self, op: Op, a: NodeId, who: &'static str) -> (r: Result<NodeId, Error>)
        requires
            old(self).wf(), old(self).room(1), old(self).valid(a),
            op == Op::Det || op == Op::Cholesky || op == Op::Eigh || op == Op::Eigvals,
        ensures
            final(self).wf(), final(self).grew(*old(self), 1),
            r is Ok <==> square(old(self).sh(a)) && f32_or_f64(old(self).dt(a))
                && (op == Op::Eigh ==> old(self).sh(a).last() < usize::MAX),
            r matches Ok(id) ==> final(self).pushed(*old(self), id, op, seq![a]),
            r is Err ==> *final(self) == *old(self),
    {
        let ash = self.shape(a);
        let r = ash.len();
        if r < 2 || ash[r - 1] != ash[r - 2] {
            return Err(Error::new(who, ErrorKind::Invalid));
        }
        let dt = self.dtype(a);
        if dt != DType::F32 && dt != DType::F64 {
            return Err(Error::new(who, ErrorKind::DTypeClass(dt)));
        }
        if matches!(op, Op::Eigh) && ash[r - 1] == usize::MAX {
            return Err(Error::new(who, ErrorKind::Invalid));
        }
        let v = vec![a];
        assert(v@ =~= seq![a]);
        assert(ins_of(self.nodes@, v@)[0] == (self.sh(a), self.dt(a)));
        Ok(self.push(op, v))
    }

    /// Determinant of each `[.., N, N]` (LU; F32/F64): `[..]`.
    pub fn det(&mut self, a: NodeId) -> (r: Result<NodeId, Error>)
        requires old(self).wf(), old(self).room(1), old(self).valid(a),
        ensures
            final(self).wf(), final(self).grew(*old(self), 1),
            r is Ok <==> square(old(self).sh(a)) && f32_or_f64(old(self).dt(a)),
            r matches Ok(id) ==> final(self).valid(id) && final(self).dt(id) == old(self).dt(a)
                && final(self).sh(id) == old(self).sh(a).take(old(self).sh(a).len() - 2),
            r matches Ok(id) ==> final(self).node_is(id, Op::Det, seq![a]),
            r is Err ==> *final(self) == *old(self),
    {
        self.push_square(Op::Det, a, "det")
    }

    /// Cholesky factor `L` (lower triangular, `A = L L^T`) of each symmetric positive-definite
    /// `[.., N, N]` (F32/F64).
    pub fn cholesky(&mut self, a: NodeId) -> (r: Result<NodeId, Error>)
        requires old(self).wf(), old(self).room(1), old(self).valid(a),
        ensures
            final(self).wf(), final(self).grew(*old(self), 1),
            r is Ok <==> square(old(self).sh(a)) && f32_or_f64(old(self).dt(a)),
            r matches Ok(id) ==> final(self).valid(id) && final(self).dt(id) == old(self).dt(a)
                && final(self).sh(id) == old(self).sh(a),
            r matches Ok(id) ==> final(self).node_is(id, Op::Cholesky, seq![a]),
            r is Err ==> *final(self) == *old(self),
    {
        self.push_square(Op::Cholesky, a, "cholesky")
    }

    /// Eigenvalues of each real square `[.., N, N]` (F32/F64), complex: `[.., N]`.
    pub fn eigvals(&mut self, a: NodeId) -> (r: Result<NodeId, Error>)
        requires old(self).wf(), old(self).room(1), old(self).valid(a),
        ensures
            final(self).wf(), final(self).grew(*old(self), 1),
            r is Ok <==> square(old(self).sh(a)) && f32_or_f64(old(self).dt(a)),
            r matches Ok(id) ==> final(self).valid(id)
                && final(self).dt(id) == (if old(self).dt(a) == DType::F64 { DType::C128 } else { DType::C64 })
                && final(self).sh(id) == old(self).sh(a).drop_last(),
            r matches Ok(id) ==> final(self).node_is(id, Op::Eigvals, seq![a]),
            r is Err ==> *final(self) == *old(self),
    {
        let r = self.push_square(Op::Eigvals, a, "eigvals");
        proof {
            if r is Ok {
                assert(self.sh(a).take(self.sh(a).len() - 1) =~= self.sh(a).drop_last());
            }
        }
        r
    }

    /// Batched matmul over the trailing two axes: `[.., m, k] @ [.., k, n]`.
    fn bmm(&mut self, a: NodeId, b: NodeId) -> (r: Result<NodeId, Error>)
        requires old(self).wf(), old(self).room(1), old(self).valid(a), old(self).valid(b),
            old(self).sh(a).len() >= 2,
        ensures
            final(self).wf(), final(self).grew(*old(self), 1),
            bmm_shapes(old(self).sh(a), old(self).sh(b)) && old(self).dt(a) == old(self).dt(b)
                && old(self).dt(a).spec_is_arith() ==> r is Ok,
            r matches Ok(id) ==> final(self).valid(id) && final(self).dt(id) == old(self).dt(a)
                && old(self).dt(a) == old(self).dt(b) && old(self).dt(a).spec_is_arith()
                && (old(self).sh(b).len() == old(self).sh(a).len() ==> final(self).sh(id) == bmm_shape(old(self).sh(a), old(self).sh(b))),
            r matches Ok(id) ==> final(self).srcs(id) == seq![a, b] && final(self).opn(id) is DotGeneral,
    {
        let r = self.rank(a);
        let mut batch: Vec<usize> = Vec::new();
        let mut i: usize = 0;
        while i < r - 2
            invariant i <= r - 2, batch@ == iota_seq(i as nat),
            decreases r - 2 - i,
        {
            batch.push(i);
            i = i + 1;
            assert(batch@ =~= iota_seq(i as nat));
        }
        let batch2 = crate::graph::op::copy_vec(&batch);
        let lc: Vec<usize> = vec![r - 1];
        let rc: Vec<usize> = vec![r - 2];
        assert(lc@ =~= seq![(r - 1) as usize] && rc@ =~= seq![(r - 2) as usize]);
        proof {
            let sa = self.sh(a);
            let sb = self.sh(b);
            if sb.len() == sa.len() {
                lemma_bmm_shape(sa, sb);
            }
            if bmm_shapes(sa, sb) {
                let bt = iota_seq((r - 2) as nat);
                assert(crate::graph::ops::base::slicing::axes_ok(bt + seq![(r - 1) as usize], r as nat));
                assert(crate::graph::ops::base::slicing::axes_ok(bt + seq![(r - 2) as usize], r as nat));
                assert forall|q: int| 0 <= q < bt.len() implies sa[#[trigger] bt[q] as int] == sb[bt[q] as int] by {
                    assert(sa.take(r - 2)[q] == sb.take(r - 2)[q]);
                }
                assert(dot_ok(sa, sb, seq![(r - 1) as usize], seq![(r - 2) as usize], bt, bt));
            }
        }
        self.dot_general(a, b, lc, rc, batch, batch2)
    }

    /// Batched contraction over the trailing pair of axes of rank-`r` operands: axis
    /// `last2(r, ta)` of `a` with axis `last2(r, tb)` of `b`, batched over axes `0..r - 2`.
    pub(crate) fn dot_last2(&mut self, a: NodeId, b: NodeId, r: usize, ta: bool, tb: bool) -> (res: Result<NodeId, Error>)
        requires old(self).wf(), old(self).room(1), old(self).valid(a), old(self).valid(b), r >= 2,
        ensures
            final(self).wf(), final(self).grew(*old(self), 1),
            res matches Ok(id) ==> final(self).valid(id) && final(self).dt(id) == old(self).dt(a)
                && old(self).dt(a) == old(self).dt(b) && old(self).dt(a).spec_is_arith(),
            old(self).sh(a).len() == r && old(self).sh(b).len() == r ==> {
                let sa = old(self).sh(a);
                let sb = old(self).sh(b);
                &&& res is Ok <==> old(self).dt(a) == old(self).dt(b) && old(self).dt(a).spec_is_arith()
                    && sa.take(r - 2) == sb.take(r - 2) && sa[last2(r as nat, ta)] == sb[last2(r as nat, tb)]
                &&& res matches Ok(id) ==> final(self).sh(id) == sa.take(r - 2).push(sa[last2(r as nat, !ta)]).push(sb[last2(r as nat, !tb)])
            },
            res matches Ok(id) ==> final(self).srcs(id) == seq![a, b] && final(self).opn(id) is DotGeneral,
            res matches Ok(id) ==> (final(self).opn(id) matches Op::DotGeneral { lhs_contract, rhs_contract, lhs_batch, rhs_batch }
                && lhs_contract@ == seq![last2(r as nat, ta) as usize] && rhs_contract@ == seq![last2(r as nat, tb) as usize]
                && lhs_batch@ == iota_seq((r - 2) as nat) && rhs_batch@ == iota_seq((r - 2) as nat)),
    {
        let mut batch: Vec<usize> = Vec::new();
        let mut i: usize = 0;
        while i < r - 2
            invariant i <= r - 2, batch@ == iota_seq(i as nat),
            decreases r - 2 - i,
        {
            batch.push(i);
            i = i + 1;
            assert(batch@ =~= iota_seq(i as nat));
        }
        let batch2 = crate::graph::op::copy_vec(&batch);
        let ca: usize = if ta { r - 1 } else { r - 2 };
        let cb: usize = if tb { r - 1 } else { r - 2 };
        let lc: Vec<usize> = vec![ca];
        let rc: Vec<usize> = vec![cb];
        assert(lc@ =~= seq![ca] && rc@ =~= seq![cb]);
        proof {
            let sa = self.sh(a);
            let sb = self.sh(b);
            if sa.len() == r && sb.len() == r {
                lemma_dot_last2(sa, sb, ta, tb);
                let bt = iota_seq((r - 2) as nat);
                assert(crate::graph::ops::base::slicing::axes_ok(bt + seq![ca], r as nat));
                assert(crate::graph::ops::base::slicing::axes_ok(bt + seq![cb], r as nat));
                if sa.take(r - 2) == sb.take(r - 2) {
                    assert forall|q: int| 0 <= q < bt.len() implies sa[#[trigger] bt[q] as int] == sb[bt[q] as int] by {
                        assert(sa.take(r - 2)[q] == sb.take(r - 2)[q]);
                    }
                }
                if dot_ok(sa, sb, seq![ca], seq![cb], bt, bt) {
                    assert(sa.take(r - 2) =~= sb.take(r - 2)) by {
                        assert forall|q: int| 0 <= q < r - 2 implies #[trigger] sa.take(r - 2)[q] == sb.take(r - 2)[q] by {
                            assert(bt[q] == q);
                            assert(sa[bt[q] as int] == sb[bt[q] as int]);
                        }
                    }
                    assert(seq![ca][0] == ca);
                }
            }
        }
        self.dot_general(a, b, lc, rc, batch, batch2)
    }

    /// Swap the trailing two axes.
    fn transpose_last(&mut self, a: NodeId) -> (id: NodeId)
        requires old(self).wf(), old(self).room(1), old(self).valid(a), old(self).sh(a).len() >= 2,
        ensures
            final(self).wf(), final(self).grew(*old(self), 1), final(self).valid(id),
            final(self).dt(id) == old(self).dt(a),
            final(self).sh(id) == swap_dims(old(self).sh(a), old(self).sh(a).len() - 2, old(self).sh(a).len() - 1),
            final(self).srcs(id) == seq![a],
            final(self).opn(id) matches Op::Permute { perm } && perm@ == crate::graph::shape::swap_perm(
                old(self).sh(a).len(), old(self).sh(a).len() - 2, old(self).sh(a).len() - 1),
    {
        let r = self.rank(a);
        ok_id(self.transpose(a, r - 2, r - 1))
    }

    /// The identity `[.., n, n]` with `a`'s batch dims and dtype (`a` is `[.., n, n]`).
    #[verifier::spinoff_prover]
    #[verifier::rlimit(40)]
    fn eye_like(&mut self, a: NodeId, n: usize) -> (id: NodeId)
        requires
            old(self).wf(), old(self).room(5), old(self).valid(a), square(old(self).sh(a)),
            old(self).sh(a).last() == n, n * n * 4 <= usize::MAX, n <= i64::MAX,
        ensures
            final(self).wf(), final(self).grew(*old(self), 5), final(self).valid(id),
            final(self).dt(id) == old(self).dt(a), final(self).sh(id) == old(self).sh(a),
            is_eye_of(*final(self), id, n),
    {
        let sh = self.shape(a);
        let r = sh.len();
        let nn: Vec<usize> = vec![n, n];
        assert(nn@ =~= seq![n, n]);
        let eye0 = self.const_storage(grid_storage(Grid::Eye, n, n), nn);
        let ghost ge = *self;
        let dt = self.dtype(a);
        let eye = if dt == DType::F32 { eye0 } else { self.cast(eye0, dt) };
        let ghost gc = *self;
        let mut full = ones_vec(r);
        full.set(r - 2, n);
        full.set(r - 1, n);
        let ghost fs = full@;
        proof {
            crate::graph::shape::lemma_numel_ones((r - 2) as nat);
            assert(fs =~= Seq::new((r - 2) as nat, |i: int| 1usize) + seq![n] + seq![n]);
            crate::graph::shape::lemma_numel_concat(Seq::new((r - 2) as nat, |i: int| 1usize) + seq![n], seq![n]);
            crate::graph::shape::lemma_numel_concat(Seq::new((r - 2) as nat, |i: int| 1usize), seq![n]);
            crate::graph::shape::lemma_numel_concat(seq![n], seq![n]);
            assert(seq![n] + seq![n] =~= seq![n, n]);
            crate::graph::shape::lemma_numel_single(n);
            assert(n * n <= usize::MAX) by (nonlinear_arith) requires n * n * 4 <= usize::MAX;
        }
        let er = ok_id(self.reshape(eye, full));
        let ghost gr = *self;
        let b = self.broadcast_to(er, sh);
        assert(b is Ok) by {
            assert(crate::graph::shape::left_pad_ones(fs, r as nat) =~= fs);
            assert(expand_ok(fs, self.sh(a)));
        }
        proof {
            ge.lemma_node_kept(*self, eye0);
            gc.lemma_node_kept(*self, eye);
            gr.lemma_node_kept(*self, er);
            assert(self.srcs(b->Ok_0) =~= seq![er]);
        }
        ok_id(b)
    }

    /// Matrix inverse of each `[.., N, N]` (F32/F64): `solve(A, I)`.
    #[verifier::spinoff_prover]
    #[verifier::rlimit(40)]
    pub fn inv(&mut self, a: NodeId) -> (r: Result<NodeId, Error>)
        requires
            old(self).wf(), old(self).room(6), old(self).valid(a), old(self).sh(a).len() >= 2,
            old(self).sh(a).last() * old(self).sh(a).last() * 4 <= usize::MAX, old(self).sh(a).last() <= i64::MAX,
        ensures
            final(self).wf(), final(self).grew(*old(self), 6),
            r is Ok <==> square(old(self).sh(a)) && f32_or_f64(old(self).dt(a)),
            r matches Ok(id) ==> final(self).valid(id) && final(self).dt(id) == old(self).dt(a)
                && final(self).sh(id) == old(self).sh(a),
            r matches Ok(id) ==> ({
                let g = *final(self);
                let n = old(self).sh(a).last();
                let eb = g.arg(id, 1);
                let e = if g.opn(eb) is Cast { g.arg(eb, 0) } else { eb };
                let er = g.arg(e, 0);
                &&& g.node_is(id, Op::Solve, seq![a, eb])
                &&& g.opn(e) is Expand && g.srcs(e).len() == 1
                &&& g.opn(er) is Reshape && g.srcs(er).len() == 1
                &&& is_grid_const(g, g.arg(er, 0), Grid::Eye, n, n)
            }),
    {
        let ash = self.shape(a);
        let r = ash.len();
        let n = ash[r - 1];
        let eye = self.const_storage(grid_storage(Grid::Eye, n, n), vec![n, n]);
        let mut full = ones_vec(r);
        full.set(r - 2, n);
        full.set(r - 1, n);
        let ghost fs = full@;
        proof {
            crate::graph::shape::lemma_numel_ones((r - 2) as nat);
            assert(fs =~= Seq::new((r - 2) as nat, |i: int| 1usize) + seq![n] + seq![n]);
            crate::graph::shape::lemma_numel_concat(Seq::new((r - 2) as nat, |i: int| 1usize) + seq![n], seq![n]);
            crate::graph::shape::lemma_numel_concat(Seq::new((r - 2) as nat, |i: int| 1usize), seq![n]);
            crate::graph::shape::lemma_numel_concat(seq![n], seq![n]);
            assert(seq![n] + seq![n] =~= seq![n, n]);
            crate::graph::shape::lemma_numel_single(n);
            assert(n * n <= usize::MAX) by (nonlinear_arith) requires n * n * 4 <= usize::MAX;
        }
        let eye_r = ok_id(self.reshape(eye, full));
        let ash2 = self.shape(a);
        let eye_b = match self.expand(eye_r, ash2) {
            Ok(e) => e,
            Err(e) => {
                assert(!square(ash@)) by {
                    if square(ash@) { assert(expand_ok(fs, ash@)); }
                }
                return Err(e);
            },
        };
        let dt = self.dtype(a);
        let eye_b = if dt == DType::F32 { eye_b } else { self.cast(eye_b, dt) };
        let res = self.solve(a, eye_b);
        proof {
            if square(ash@) {
                assert(solve_shapes(ash@, ash@));
            }
        }
        res
    }

    /// Sign and log-absolute determinant `(sign, ln|det|)` of each `[.., N, N]` (F32/F64).
    pub fn slogdet(&mut self, a: NodeId) -> (r: Result<(NodeId, NodeId), Error>)
        requires old(self).wf(), old(self).room(24), old(self).valid(a),
        ensures
            final(self).wf(), final(self).grew(*old(self), 24),
            r is Ok <==> square(old(self).sh(a)) && f32_or_f64(old(self).dt(a)),
            r matches Ok((s, l)) ==> final(self).valid(s) && final(self).valid(l)
                && final(self).dt(s) == old(self).dt(a) && final(self).dt(l) == old(self).dt(a)
                && final(self).sh(s) == old(self).sh(a).take(old(self).sh(a).len() - 2)
                && final(self).sh(l) == old(self).sh(a).take(old(self).sh(a).len() - 2),
            r is Err ==> *final(self) == *old(self),
            r matches Ok((s, l)) ==> ({
                let g = *final(self);
                let d = g.arg(g.arg(g.arg(s, 0), 0), 1);
                let ad = g.arg(g.arg(l, 0), 0);
                &&& g.node_is(d, Op::Det, seq![a])
                &&& crate::graph::ops::base::elementwise::is_sign_of(g, s, d)
                &&& crate::graph::ops::base::explog::is_ln_of(g, l, ad)
                &&& g.node_is(ad, Op::Max, seq![d, g.arg(ad, 1)]) && g.node_is(g.arg(ad, 1), Op::Neg, seq![d])
            }),
    {
        let d = self.det(a)?;
        let s = self.sign(d);
        let ghost g1 = *self;
        let ad = self.abs(d);
        let l = self.ln(ad);
        proof { crate::graph::ops::base::elementwise::lemma_sign_kept(g1, *self, s, d); }
        Ok((s, l))
    }

    /// Eigendecomposition of each symmetric `[.., N, N]` (F32/F64): `(eigenvalues [.., N]`
    /// ascending, `eigenvectors [.., N, N])`, the eigenvectors as columns.
    #[verifier::spinoff_prover]
    #[verifier::rlimit(40)]
    pub fn eigh(&mut self, a: NodeId) -> (r: Result<(NodeId, NodeId), Error>)
        requires old(self).wf(), old(self).room(4), old(self).valid(a),
            numel(old(self).sh(a)) <= usize::MAX, old(self).sh(a).len() >= 1 ==> numel(old(self).sh(a).update(old(self).sh(a).len() - 1, 1)) <= usize::MAX,
        ensures
            final(self).wf(), final(self).grew(*old(self), 4),
            r is Ok <==> square(old(self).sh(a)) && f32_or_f64(old(self).dt(a)) && old(self).sh(a).last() < usize::MAX,
            r matches Ok((vals, vecs)) ==> final(self).valid(vals) && final(self).valid(vecs)
                && final(self).dt(vals) == old(self).dt(a) && final(self).dt(vecs) == old(self).dt(a)
                && final(self).sh(vals) == old(self).sh(a).drop_last() && final(self).sh(vecs) == old(self).sh(a),
            r is Err ==> *final(self) == *old(self),
            r matches Ok((vals, vecs)) ==> ({
                let g = *final(self);
                let packed = g.arg(vecs, 0);
                let col = g.arg(vals, 0);
                let s = old(self).sh(a);
                let n = s.last();
                let psh = s.update(s.len() - 1, (n + 1) as usize);
                &&& g.node_is(packed, Op::Eigh, seq![a])
                &&& g.srcs(vecs) == seq![packed] && (g.opn(vecs) matches Op::Slice { ranges }
                    && ranges@ == crate::graph::ops::base::signal::axis_window(psh, s.len() - 1, 0, n)
                        .map_values(|q: (usize, usize)| (q.0, q.1, 1usize)))
                &&& g.opn(vals) is Reshape && g.srcs(vals) == seq![col]
                &&& g.srcs(col) == seq![packed] && (g.opn(col) matches Op::Slice { ranges }
                    && ranges@ == crate::graph::ops::base::signal::axis_window(psh, s.len() - 1, n, (n + 1) as usize)
                        .map_values(|q: (usize, usize)| (q.0, q.1, 1usize)))
            }),
    {
        let packed = self.push_square(Op::Eigh, a, "eigh")?;
        let sh = self.shape(a);
        let r = sh.len();
        let n = sh[r - 1];
        let psh = self.shape(packed);
        assert(psh@ == sh@.update(r - 1, (n + 1) as usize));
        let vr = crate::graph::ops::base::signal::axis_ranges(&psh, r - 1, 0, n);
        proof {
            assert forall|q: int| 0 <= q < vr@.len() implies (#[trigger] vr@[q]).0 <= vr@[q].1 <= psh@[q] by {}
            assert(vr@.map_values(|p: (usize, usize)| (p.1 - p.0) as usize) =~= sh@);
        }
        let vecs = ok_id(self.slice(packed, vr));
        let sr = crate::graph::ops::base::signal::axis_ranges(&psh, r - 1, n, n + 1);
        proof {
            assert forall|q: int| 0 <= q < sr@.len() implies (#[trigger] sr@[q]).0 <= sr@[q].1 <= psh@[q] by {}
            assert(sr@.map_values(|p: (usize, usize)| (p.1 - p.0) as usize) =~= sh@.update(r - 1, 1usize));
        }
        let col = ok_id(self.slice(packed, sr));
        let vals = ok_id(self.squeeze(col, r - 1));
        assert(sh@.update(r - 1, 1usize).remove(r - 1) =~= sh@.drop_last());
        Ok((vals, vecs))
    }

    /// Reduced QR of each `[.., M, N]` (F32/F64): `(Q [.., M, K], R [.., K, N])`, `K = min(M, N)`.
    pub fn qr(&mut self, a: NodeId) -> (r: Result<(NodeId, NodeId), Error>)
        requires old(self).wf(), old(self).room(2), old(self).valid(a),
        ensures
            final(self).wf(), final(self).grew(*old(self), 2),
            r is Ok <==> old(self).sh(a).len() >= 2 && f32_or_f64(old(self).dt(a)),
            r matches Ok((q, rf)) ==> final(self).valid(q) && final(self).valid(rf)
                && final(self).dt(q) == old(self).dt(a) && final(self).dt(rf) == old(self).dt(a)
                && ({
                    let s = old(self).sh(a);
                    let k = if s[s.len() - 2] <= s[s.len() - 1] { s[s.len() - 2] } else { s[s.len() - 1] };
                    &&& final(self).sh(q) == s.update(s.len() - 1, k)
                    &&& final(self).sh(rf) == s.update(s.len() - 2, k)
                }),
            r is Err ==> *final(self) == *old(self),
            r matches Ok((q, rf)) ==> final(self).node_is(q, Op::Qr { r_factor: false }, seq![a])
                && final(self).node_is(rf, Op::Qr { r_factor: true }, seq![a]),
    {
        if self.rank(a) < 2 {
            return Err(Error::new("qr", ErrorKind::Invalid));
        }
        let dt = self.dtype(a);
        if dt != DType::F32 && dt != DType::F64 {
            return Err(Error::new("qr", ErrorKind::DTypeClass(dt)));
        }
        let v = vec![a];
        assert(v@ =~= seq![a]);
        assert(ins_of(self.nodes@, v@)[0] == (self.sh(a), self.dt(a)));
        let q = self.push(Op::Qr { r_factor: false }, v);
        let v2 = vec![a];
        assert(v2@ =~= seq![a]);
        assert(ins_of(self.nodes@, v2@)[0] == (self.sh(a), self.dt(a)));
        let rf = self.push(Op::Qr { r_factor: true }, v2);
        Ok((q, rf))
    }

    /// Least squares `A x ~ b` by the normal equations `A^T A x = A^T b` (`A` `[.., m, n]`
    /// full column rank, `b` `[.., m, k]`): `[.., n, k]`.
    #[verifier::spinoff_prover]
    #[verifier::rlimit(40)]
    pub fn lstsq(&mut self, a: NodeId, b: NodeId) -> (r: Result<NodeId, Error>)
        requires old(self).wf(), old(self).room(4), old(self).valid(a), old(self).valid(b), old(self).sh(a).len() >= 2,
        ensures
            final(self).wf(), final(self).grew(*old(self), 4),
            bmm_shapes(swap_dims(old(self).sh(a), old(self).sh(a).len() - 2, old(self).sh(a).len() - 1), old(self).sh(b))
                && f32_or_f64(old(self).dt(a)) && old(self).dt(a) == old(self).dt(b) ==> r is Ok,
            r matches Ok(id) ==> final(self).valid(id) && final(self).dt(id) == old(self).dt(a)
                && f32_or_f64(old(self).dt(a)) && old(self).dt(a) == old(self).dt(b)
                && (old(self).sh(b).len() == old(self).sh(a).len() ==> final(self).sh(id)
                    == bmm_shape(swap_dims(old(self).sh(a), old(self).sh(a).len() - 2, old(self).sh(a).len() - 1), old(self).sh(b))),
            r matches Ok(id) ==> ({
                let g = *final(self);
                let ata = g.arg(id, 0);
                let atb = g.arg(id, 1);
                let at = g.arg(ata, 0);
                &&& g.node_is(id, Op::Solve, seq![ata, atb])
                &&& g.opn(ata) is DotGeneral && g.srcs(ata) == seq![at, a]
                &&& g.opn(atb) is DotGeneral && g.srcs(atb) == seq![at, b]
                &&& g.srcs(at) == seq![a] && (g.opn(at) matches Op::Permute { perm }
                    && perm@ == crate::graph::shape::swap_perm(old(self).sh(a).len(), old(self).sh(a).len() - 2, old(self).sh(a).len() - 1))
            }),
    {
        let ghost sa = self.sh(a);
        let ghost sb = self.sh(b);
        let ghost r = sa.len();
        let at = self.transpose_last(a);
        let ghost st = self.sh(at);
        assert(bmm_shapes(st, sa)) by {
            assert(sa.take(r - 2) =~= st.take(r - 2));
        }
        let ata = self.bmm(at, a)?;
        let atb = self.bmm(at, b)?;
        let res = self.solve(ata, atb);
        proof {
            if bmm_shapes(st, sb) {
                assert(solve_shapes(bmm_shape(st, sa), bmm_shape(st, sb))) by {
                    assert(bmm_shape(st, sb).take(r - 2) =~= bmm_shape(st, sa).take(r - 2));
                }
            }
        }
        res
    }

    /// Moore-Penrose pseudo-inverse of a full-rank `[.., m, n]` (F32/F64): `(A^T A)^-1 A^T`
    /// when tall, `A^T (A A^T)^-1` when wide; `[.., n, m]`.
    #[verifier::spinoff_prover]
    #[verifier::rlimit(60)]
    pub fn pinv(&mut self, a: NodeId) -> (r: Result<NodeId, Error>)
        requires
            old(self).wf(), old(self).room(10), old(self).valid(a), old(self).sh(a).len() >= 2,
            old(self).sh(a)[old(self).sh(a).len() - 2] * old(self).sh(a)[old(self).sh(a).len() - 2] * 4 <= usize::MAX,
            old(self).sh(a)[old(self).sh(a).len() - 2] <= i64::MAX,
        ensures
            final(self).wf(), final(self).grew(*old(self), 10),
            r is Ok <==> f32_or_f64(old(self).dt(a)),
            r matches Ok(id) ==> final(self).valid(id) && final(self).dt(id) == old(self).dt(a)
                && final(self).sh(id) == swap_dims(old(self).sh(a), old(self).sh(a).len() - 2, old(self).sh(a).len() - 1),
            r matches Ok(id) ==> ({
                let g = *final(self);
                let s = old(self).sh(a);
                let m = s[s.len() - 2];
                let n = s.last();
                let swap = crate::graph::shape::swap_perm(s.len(), s.len() - 2, s.len() - 1);
                &&& m >= n ==> ({
                    let ata = g.arg(id, 0);
                    let at = g.arg(id, 1);
                    &&& g.node_is(id, Op::Solve, seq![ata, at])
                    &&& g.opn(ata) is DotGeneral && g.srcs(ata) == seq![at, a]
                    &&& g.srcs(at) == seq![a] && (g.opn(at) matches Op::Permute { perm } && perm@ == swap)
                })
                &&& m < n ==> ({
                    let at = g.arg(id, 0);
                    let iaat = g.arg(id, 1);
                    let aat = g.arg(iaat, 0);
                    &&& g.opn(id) is DotGeneral && g.srcs(id) == seq![at, iaat]
                    &&& g.node_is(iaat, Op::Solve, seq![aat, g.arg(iaat, 1)])
                    &&& g.opn(aat) is DotGeneral && g.srcs(aat) == seq![a, at]
                    &&& g.srcs(at) == seq![a] && (g.opn(at) matches Op::Permute { perm } && perm@ == swap)
                })
            }),
    {
        let sh = self.shape(a);
        let r = sh.len();
        let m = sh[r - 2];
        let n = sh[r - 1];
        let ghost sa = sh@;
        let at = self.transpose_last(a);
        let ghost st = self.sh(at);
        assert(bmm_shapes(st, sa)) by { assert(sa.take(r - 2) =~= st.take(r - 2)); }
        assert(bmm_shapes(sa, st)) by { assert(sa.take(r - 2) =~= st.take(r - 2)); }
        if m >= n {
            let ata = self.bmm(at, a)?;
            assert(solve_shapes(self.sh(ata), st)) by {
                assert(self.sh(ata).take(r - 2) =~= st.take(r - 2));
            }
            self.solve(ata, at)
        } else {
            let aat = self.bmm(a, at)?;
            let iaat = self.inv(aat)?;
            let res = self.bmm(at, iaat);
            assert(bmm_shapes(st, self.sh(iaat))) by {
                assert(self.sh(iaat).take(r - 2) =~= st.take(r - 2));
            }
            assert(bmm_shape(st, self.sh(iaat)) =~= swap_dims(sa, r - 2, r - 1));
            res
        }
    }

    /// Matrix exponential of each `[.., N, N]` by the Taylor series `sum_{k <= 18} A^k / k!`
    /// (no scaling and squaring).
    #[verifier::loop_isolation(false)]
    #[verifier::spinoff_prover]
    #[verifier::rlimit(60)]
    pub fn matrix_exp(&mut self, a: NodeId) -> (r: Result<NodeId, Error>)
        requires
            old(self).wf(), old(self).room(120), old(self).valid(a), old(self).sh(a).len() >= 1,
            old(self).sh(a).last() * old(self).sh(a).last() * 4 <= usize::MAX, old(self).sh(a).last() <= i64::MAX,
        ensures
            final(self).wf(), final(self).grew(*old(self), 120),
            r is Ok <==> square(old(self).sh(a)) && old(self).dt(a).spec_is_arith(),
            r matches Ok(id) ==> final(self).valid(id) && final(self).dt(id) == old(self).dt(a)
                && final(self).sh(id) == old(self).sh(a),
            r matches Ok(id) ==> exists|t: NodeId, e: NodeId| #[trigger] taylor_upto(*final(self), id, t, e, a, 18)
                && is_eye_of(*final(self), e, old(self).sh(a).last()),
    {
        let ghost g0 = *self;
        let sh = self.shape(a);
        let r = sh.len();
        let n = sh[r - 1];
        if r < 2 || sh[r - 2] != n {
            return Err(Error::new("matrix_exp", ErrorKind::Invalid));
        }
        let ghost sa = sh@;
        let eye = self.eye_like(a, n);
        let mut acc = eye;
        let mut term = eye;
        let mut k: u64 = 1;
        while k <= 18
            invariant
                1 <= k <= 19, self.wf(), self.grew(g0, (5 + 6 * (k - 1)) as nat),
                self.valid(acc) && self.sh(acc) == sa && self.dt(acc) == g0.dt(a),
                self.valid(term) && self.sh(term) == sa && self.dt(term) == g0.dt(a),
                k > 1 ==> g0.dt(a).spec_is_arith(),
                taylor_upto(*self, acc, term, eye, a, (k - 1) as nat),
                is_eye_of(*self, eye, n),
            decreases 19 - k,
        {
            assert(bmm_shapes(sa, sa));
            assert(bmm_shape(sa, sa) =~= sa);
            let ghost gk = *self;
            let ghost pacc = acc;
            let ghost pterm = term;
            let at = self.bmm(term, a)?;
            let ghost g1 = *self;
            let rb = crate::graph::f32bits::recip_count_bits(k);
            let inv = self.scalar(at, rb);
            let ghost g2 = *self;
            term = ok_id(self.mul(at, inv));
            acc = ok_id(self.add(acc, term));
            proof {
                lemma_taylor_kept(gk, *self, pacc, pterm, eye, a, (k - 1) as nat);
                lemma_eye_kept(gk, *self, eye, n);
                g1.lemma_node_kept(*self, at);
                crate::graph::ops::base::scalar::lemma_scalar_kept(g2, *self, inv, rb);
                assert(crate::graph::ops::base::scalar::is_scalar_of(*self, inv, rb));
                assert(recip_scalar(*self, inv, k as int));
                assert(taylor_upto(*self, acc, term, eye, a, k as nat));
            }
            k = k + 1;
        }
        proof {
            assert(taylor_upto(*self, acc, term, eye, a, 18));
        }
        Ok(acc)
    }

    /// SVD of a tall or square `[.., M, N]` (`M >= N`): from the eigendecomposition of
    /// `A^T A`, singular values descending.
    #[verifier::spinoff_prover]
    #[verifier::rlimit(80)]
    fn svd_tall(&mut self, a: NodeId) -> (r: Result<(NodeId, NodeId, NodeId), Error>)
        requires
            old(self).wf(), old(self).room(24), old(self).valid(a), old(self).sh(a).len() >= 2,
            numel(old(self).sh(a)) <= usize::MAX,
            numel(old(self).sh(a).take(old(self).sh(a).len() - 2)) * old(self).sh(a).last() * (old(self).sh(a).last() + 1) <= usize::MAX,
        ensures
            final(self).wf(), final(self).grew(*old(self), 24),
            r is Ok <==> f32_or_f64(old(self).dt(a)) && old(self).sh(a).last() < usize::MAX,
            r matches Ok((u, sv, v)) ==> ({
                let s = old(self).sh(a);
                let n = s.last();
                &&& final(self).valid(u) && final(self).valid(sv) && final(self).valid(v)
                &&& final(self).dt(u) == old(self).dt(a) && final(self).dt(sv) == old(self).dt(a)
                &&& final(self).dt(v) == old(self).dt(a)
                &&& final(self).sh(u) == s
                &&& final(self).sh(sv) == s.take(s.len() - 2).push(n)
                &&& final(self).sh(v) == s.take(s.len() - 2).push(n).push(n)
            }),
    {
        let sh = self.shape(a);
        let r = sh.len();
        let ghost sa = sh@;
        let ghost bt = sa.take(r - 2);
        let n = sh[r - 1];
        let at = self.transpose_last(a);
        let ghost st = self.sh(at);
        assert(bmm_shapes(st, sa)) by { assert(sa.take(r - 2) =~= st.take(r - 2)); }
        let ata = self.bmm(at, a)?;
        let ghost sq = bt.push(n).push(n);
        assert(self.sh(ata) =~= sq);
        proof {
            lemma_numel_push2(bt, n, n);
            lemma_numel_push2(bt, n, 1usize);
            lemma_numel_push2(bt, 1usize, n);
            assert(sq.update(r - 1, 1usize) =~= bt.push(n).push(1usize));
            assert(bt.push(n).drop_last() =~= bt);
            crate::graph::shape::lemma_numel_nonneg(bt);
            assert(numel(bt) * n * n <= usize::MAX && numel(bt) * n <= usize::MAX) by (nonlinear_arith)
                requires numel(bt) * n * (n + 1) <= usize::MAX, numel(bt) >= 0, n >= 0;
            assert(numel(bt) * n * 1 == numel(bt) * n);
            assert(numel(bt) * 1 * n == numel(bt) * n);
        }
        let (evals, evecs) = self.eigh(ata)?;
        let ev = ok_id(self.clamp_min(evals, 0));
        let sig = self.sqrt(ev);
        let sr = self.rank(sig);
        let ax1: Vec<usize> = vec![sr - 1];
        assert(ax1@ =~= seq![(sr - 1) as usize]);
        let sv = ok_id(self.flip(sig, ax1));
        let vr = self.rank(evecs);
        let ax2: Vec<usize> = vec![vr - 1];
        assert(ax2@ =~= seq![(vr - 1) as usize]);
        let v = ok_id(self.flip(evecs, ax2));
        assert(bmm_shapes(sa, sq)) by { assert(sq.take(r - 2) =~= bt); }
        let av = ok_id(self.bmm(a, v));
        assert(self.sh(av) =~= sa);
        let ssh = self.shape(sv);
        let mut s_re = self.shape(sv);
        s_re.insert(ssh.len() - 1, 1);
        proof { crate::graph::shape::lemma_numel_insert_one(ssh@, ssh@.len() - 1); }
        assert(ssh@ =~= bt.push(n));
        let s_row = ok_id(self.reshape(sv, s_re));
        let avsh = self.shape(av);
        let sb = self.broadcast_to(s_row, avsh);
        assert(sb is Ok) by {
            let srow = self.sh(s_row);
            assert(srow =~= bt.push(1usize).push(n));
            assert(crate::graph::shape::left_pad_ones(srow, sa.len()) =~= srow);
            assert(expand_ok(srow, sa));
        }
        let sb = ok_id(sb);
        let u = ok_id(self.div(av, sb));
        Ok((u, sv, v))
    }

    /// SVD `A = U diag(S) V^T` of each `[.., M, N]` (F32/F64), singular values descending: a
    /// wide input goes through its transpose. Full-rank inputs.
    #[verifier::spinoff_prover]
    #[verifier::rlimit(60)]
    pub fn svd(&mut self, a: NodeId) -> (r: Result<(NodeId, NodeId, NodeId), Error>)
        requires
            old(self).wf(), old(self).room(25), old(self).valid(a), numel(old(self).sh(a)) <= usize::MAX,
            old(self).sh(a).len() >= 2 ==> ({
                let s = old(self).sh(a);
                let k = if s[s.len() - 2] < s[s.len() - 1] { s[s.len() - 2] } else { s[s.len() - 1] };
                numel(s.take(s.len() - 2)) * k * (k + 1) <= usize::MAX
            }),
        ensures
            final(self).wf(), final(self).grew(*old(self), 25),
            r is Ok <==> old(self).sh(a).len() >= 2 && f32_or_f64(old(self).dt(a)) && ({
                let s = old(self).sh(a);
                (if s[s.len() - 2] < s[s.len() - 1] { s[s.len() - 2] } else { s[s.len() - 1] }) < usize::MAX
            }),
            r matches Ok((u, sv, v)) ==> ({
                let s = old(self).sh(a);
                let m = s[s.len() - 2];
                let n = s.last();
                let k = if m < n { m } else { n };
                let b = s.take(s.len() - 2);
                &&& final(self).valid(u) && final(self).valid(sv) && final(self).valid(v)
                &&& final(self).dt(u) == old(self).dt(a) && final(self).dt(sv) == old(self).dt(a)
                &&& final(self).dt(v) == old(self).dt(a)
                &&& final(self).sh(u) == b.push(m).push(k)
                &&& final(self).sh(sv) == b.push(k)
                &&& final(self).sh(v) == b.push(n).push(k)
            }),
            r is Err ==> *final(self) == *old(self),
    {
        let sh = self.shape(a);
        let r = sh.len();
        if r < 2 {
            return Err(Error::new("svd", ErrorKind::Invalid));
        }
        let m = sh[r - 2];
        let n = sh[r - 1];
        let dt = self.dtype(a);
        if dt != DType::F32 && dt != DType::F64 {
            return Err(Error::new("svd", ErrorKind::DTypeClass(dt)));
        }
        let k = if m < n { m } else { n };
        if k == usize::MAX {
            return Err(Error::new("svd", ErrorKind::Invalid));
        }
        let ghost sa = sh@;
        let ghost bt = sa.take(r - 2);
        if m < n {
            let at = self.transpose_last(a);
            proof {
                crate::graph::shape::lemma_numel_swap(sa, r - 2, r - 1);
                assert(self.sh(at).take(r - 2) =~= bt);
            }
            let (u, s, v) = self.svd_tall(at)?;
            assert(sa =~= bt.push(m).push(n));
            assert(self.sh(at) =~= bt.push(n).push(m));
            return Ok((v, s, u));
        }
        assert(sa =~= bt.push(m).push(n));
        self.svd_tall(a)
    }
}

} // verus!
