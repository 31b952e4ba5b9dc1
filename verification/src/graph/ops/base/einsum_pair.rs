//! Labels of a pairwise einsum contraction: which survive the sum-out of each operand, which
//! are batched or contracted, and which labels and sizes the product carries.

use vstd::prelude::*;
use crate::graph::infer::{contains_usize, dot_shape, free_upto, lemma_free_upto_below};
use crate::graph::ops::base::slicing::axes_ok;
use crate::graph::shape::is_perm;
use crate::graph::ops::base::contract::dims_match;
use crate::graph::ops::base::einsum::{keep_by, no_repeat, drawn_from, drawn_at, lemma_drawn_witness, lemma_keep_by_no_repeat, lemma_keep_by_len};

verus! {

/// A label of the other operand that the output also has: batched.
pub open spec fn in_both_out(other: Seq<char>, out: Seq<char>) -> spec_fn(char) -> bool {
    |c: char| other.contains(c) && out.contains(c)
}

/// A label of the other operand that the output lacks: contracted.
pub open spec fn in_not_out(other: Seq<char>, out: Seq<char>) -> spec_fn(char) -> bool {
    |c: char| other.contains(c) && !out.contains(c)
}

/// A label in neither `a` nor `b`.
pub open spec fn in_neither(a: Seq<char>, b: Seq<char>) -> spec_fn(char) -> bool {
    |c: char| !a.contains(c) && !b.contains(c)
}

/// A label that occurs in both operands has the same size in each.
pub open spec fn cross_agree(sa: Seq<usize>, ca: Seq<char>, sb: Seq<usize>, cb: Seq<char>) -> bool {
    forall|i: int, j: int| 0 <= i < ca.len() && 0 <= j < cb.len() && #[trigger] ca[i] == #[trigger] cb[j] ==> sa[i] == sb[j]
}

/// `p` gives, for each label of `cs`, a position of that label in `v`.
pub open spec fn placed(v: Seq<char>, cs: Seq<char>, p: Seq<usize>) -> bool {
    &&& p.len() == cs.len()
    &&& forall|k: int| 0 <= k < cs.len() ==> #[trigger] p[k] < v.len() && v[p[k] as int] == cs[k]
}

/// `keep_by` over a sequence extended by one entry.
pub proof fn lemma_keep_by_push<T>(xs: Seq<T>, labels: Seq<char>, keep: spec_fn(char) -> bool, x: T, l: char)
    requires xs.len() == labels.len(),
    ensures keep_by(xs.push(x), labels.push(l), keep)
        == keep_by(xs, labels, keep) + (if keep(l) { seq![x] } else { Seq::<T>::empty() }),
    decreases xs.len(),
{
    if xs.len() == 0 {
        let p = xs.push(x);
        let q = labels.push(l);
        assert(p.drop_first() =~= Seq::<T>::empty());
        assert(q.drop_first() =~= Seq::<char>::empty());
        assert(keep_by(p.drop_first(), q.drop_first(), keep) =~= Seq::<T>::empty());
        assert(p[0] == x && q[0] == l);
        assert(keep_by(p, q, keep) == (if keep(l) { seq![x] } else { Seq::<T>::empty() }) + keep_by(p.drop_first(), q.drop_first(), keep));
        assert(keep_by(xs, labels, keep) =~= Seq::<T>::empty());
        assert(keep_by(xs.push(x), labels.push(l), keep) =~= keep_by(xs, labels, keep) + (if keep(l) { seq![x] } else { Seq::<T>::empty() }));
    } else {
        lemma_keep_by_push(xs.drop_first(), labels.drop_first(), keep, x, l);
        assert(xs.push(x).drop_first() =~= xs.drop_first().push(x));
        assert(labels.push(l).drop_first() =~= labels.drop_first().push(l));
        assert(xs.push(x)[0] == xs[0] && labels.push(l)[0] == labels[0]);
        let head: Seq<T> = if keep(labels[0]) { seq![xs[0]] } else { Seq::empty() };
        let tail: Seq<T> = if keep(l) { seq![x] } else { Seq::<T>::empty() };
        assert(head + (keep_by(xs.drop_first(), labels.drop_first(), keep) + tail)
            =~= (head + keep_by(xs.drop_first(), labels.drop_first(), keep)) + tail);
    }
}

/// The entries that `keep_by` picks sit, with their labels, at positions of the original.
pub proof fn lemma_keep_by_drawn(s: Seq<usize>, c: Seq<char>, keep: spec_fn(char) -> bool)
    requires s.len() == c.len(),
    ensures drawn_from(keep_by(s, c, keep), keep_by(c, c, keep), s, c),
    decreases s.len(),
{
    lemma_keep_by_len(s, c, c, keep);
    if s.len() > 0 {
        let s1 = s.drop_first();
        let c1 = c.drop_first();
        lemma_keep_by_drawn(s1, c1, keep);
        let ks = keep_by(s, c, keep);
        let kc = keep_by(c, c, keep);
        let h: int = if keep(c[0]) { 1 } else { 0 };
        assert forall|k: int| 0 <= k < kc.len() implies #[trigger] drawn_at(ks, kc, s, c, k) by {
            if k < h {
                lemma_drawn_witness(ks, kc, s, c, k, 0);
            } else {
                assert(drawn_at(keep_by(s1, c1, keep), keep_by(c1, c1, keep), s1, c1, k - h));
                let q = choose|q: int| 0 <= q < c1.len() && keep_by(c1, c1, keep)[k - h] == #[trigger] c1[q]
                    && keep_by(s1, c1, keep)[k - h] == s1[q];
                assert(ks[k] == keep_by(s1, c1, keep)[k - h] && kc[k] == keep_by(c1, c1, keep)[k - h]);
                lemma_drawn_witness(ks, kc, s, c, k, q + 1);
            }
        }
    }
}

/// Two sequences with no repeats and no label in common join into one with no repeats.
pub proof fn lemma_no_repeat_concat(a: Seq<char>, b: Seq<char>)
    requires no_repeat(a), no_repeat(b), forall|c: char| a.contains(c) ==> !b.contains(c),
    ensures no_repeat(a + b), forall|c: char| (a + b).contains(c) <==> a.contains(c) || b.contains(c),
{
    let ab = a + b;
    assert forall|i: int, j: int| 0 <= i < ab.len() && 0 <= j < ab.len() && i != j implies ab[i] != ab[j] by {
        if i < a.len() && j >= a.len() {
            assert(a.contains(ab[i]) && b.contains(ab[j]));
        } else if j < a.len() && i >= a.len() {
            assert(a.contains(ab[j]) && b.contains(ab[i]));
        }
    }
    assert forall|c: char| (a + b).contains(c) <==> a.contains(c) || b.contains(c) by {
        if ab.contains(c) {
            let i = choose|i: int| 0 <= i < ab.len() && ab[i] == c;
            if i < a.len() {
                assert(a[i] == c);
            } else {
                assert(b[i - a.len()] == c);
            }
        }
        if a.contains(c) {
            let i = choose|i: int| 0 <= i < a.len() && a[i] == c;
            assert(ab[i] == c);
        }
        if b.contains(c) {
            let i = choose|i: int| 0 <= i < b.len() && b[i] == c;
            assert(ab[i + a.len()] == c);
        }
    }
}

/// Which labels each stage of a pairwise contraction carries.
pub proof fn lemma_pair_labels(ls: Seq<char>, rs: Seq<char>, out: Seq<char>, lsv: Seq<char>, rsv: Seq<char>,
    batch: Seq<char>, contract: Seq<char>, lfree: Seq<char>, rfree: Seq<char>)
    requires
        no_repeat(ls), no_repeat(rs),
        lsv == keep_by(ls, ls, crate::graph::ops::base::einsum::shared_or_out(rs, out)),
        rsv == keep_by(rs, rs, crate::graph::ops::base::einsum::shared_or_out(lsv, out)),
        batch == keep_by(lsv, lsv, in_both_out(rsv, out)),
        contract == keep_by(lsv, lsv, in_not_out(rsv, out)),
        lfree == keep_by(lsv, lsv, in_neither(batch, contract)),
        rfree == keep_by(rsv, rsv, in_neither(batch, contract)),
    ensures
        no_repeat(lsv), no_repeat(rsv), no_repeat(batch + contract),
        forall|c: char| lsv.contains(c) <==> ls.contains(c) && (rs.contains(c) || out.contains(c)),
        forall|c: char| rsv.contains(c) <==> rs.contains(c) && (ls.contains(c) || out.contains(c)),
        forall|c: char| batch.contains(c) <==> ls.contains(c) && rs.contains(c) && out.contains(c),
        forall|c: char| contract.contains(c) <==> ls.contains(c) && rs.contains(c) && !out.contains(c),
        forall|c: char| (batch + contract).contains(c) <==> ls.contains(c) && rs.contains(c),
        no_repeat(batch + lfree + rfree),
        forall|c: char| (batch + lfree + rfree).contains(c) <==> (ls.contains(c) || rs.contains(c)) && out.contains(c),
{
    lemma_keep_by_no_repeat(ls, crate::graph::ops::base::einsum::shared_or_out(rs, out));
    lemma_keep_by_no_repeat(rs, crate::graph::ops::base::einsum::shared_or_out(lsv, out));
    lemma_keep_by_no_repeat(lsv, in_both_out(rsv, out));
    lemma_keep_by_no_repeat(lsv, in_not_out(rsv, out));
    lemma_keep_by_no_repeat(lsv, in_neither(batch, contract));
    lemma_keep_by_no_repeat(rsv, in_neither(batch, contract));
    assert forall|c: char| lsv.contains(c) <==> ls.contains(c) && (rs.contains(c) || out.contains(c)) by {
        lemma_kept_has(ls, crate::graph::ops::base::einsum::shared_or_out(rs, out), c);
    }
    assert forall|c: char| rsv.contains(c) <==> rs.contains(c) && (ls.contains(c) || out.contains(c)) by {
        lemma_kept_has(rs, crate::graph::ops::base::einsum::shared_or_out(lsv, out), c);
    }
    assert forall|c: char| batch.contains(c) <==> ls.contains(c) && rs.contains(c) && out.contains(c) by {
        assert(in_both_out(rsv, out)(c) == (rsv.contains(c) && out.contains(c)));
    }
    assert forall|c: char| contract.contains(c) <==> ls.contains(c) && rs.contains(c) && !out.contains(c) by {
        assert(in_not_out(rsv, out)(c) == (rsv.contains(c) && !out.contains(c)));
    }
    assert forall|c: char| lfree.contains(c) <==> (ls.contains(c) && !rs.contains(c) && out.contains(c)) by {
        assert(in_neither(batch, contract)(c) == (!batch.contains(c) && !contract.contains(c)));
    }
    assert forall|c: char| rfree.contains(c) <==> (rs.contains(c) && !ls.contains(c) && out.contains(c)) by {
        assert(in_neither(batch, contract)(c) == (!batch.contains(c) && !contract.contains(c)));
    }
    lemma_no_repeat_concat(batch, contract);
    lemma_no_repeat_concat(batch, lfree);
    lemma_no_repeat_concat(batch + lfree, rfree);
}

/// A label survives `keep_by` exactly when it occurs and `keep` picks it.
pub proof fn lemma_kept_has(labels: Seq<char>, keep: spec_fn(char) -> bool, c: char)
    requires no_repeat(labels),
    ensures keep_by(labels, labels, keep).contains(c) <==> labels.contains(c) && keep(c),
{
    lemma_keep_by_no_repeat(labels, keep);
}

/// Positions of distinct labels are distinct axes in range.
pub proof fn lemma_placed_axes(v: Seq<char>, cs: Seq<char>, p: Seq<usize>)
    requires no_repeat(cs), placed(v, cs, p),
    ensures axes_ok(p, v.len()),
{
    assert forall|k: int| 0 <= k < p.len() implies (#[trigger] p[k]) < v.len() && forall|j: int| 0 <= j < k ==> p[j] != p[k] by {
        assert forall|j: int| 0 <= j < k implies p[j] != p[k] by {
            assert(v[p[j] as int] == cs[j] && v[p[k] as int] == cs[k]);
        }
    }
}

/// In a sequence with no repeats, an axis is among the positions of `cs` exactly when its
/// label is in `cs`.
pub proof fn lemma_placed_contains(v: Seq<char>, cs: Seq<char>, p: Seq<usize>, j: int)
    requires no_repeat(v), placed(v, cs, p), 0 <= j < v.len(), v.len() <= usize::MAX,
    ensures contains_usize(p, j as usize) <==> cs.contains(v[j]),
{
    if contains_usize(p, j as usize) {
        let k = choose|k: int| 0 <= k < p.len() && p[k] == j as usize;
        assert(cs[k] == v[j]);
    }
    if cs.contains(v[j]) {
        let k = choose|k: int| 0 <= k < cs.len() && cs[k] == v[j];
        assert(v[p[k] as int] == v[j]);
        assert(p[k] == j as usize);
    }
}

/// The free axes below `k`, read as labels, are the labels below `k` that `keep` picks.
pub proof fn lemma_free_labels(v: Seq<char>, lb: Seq<usize>, lc: Seq<usize>, keep: spec_fn(char) -> bool, k: nat)
    requires
        k <= v.len(), v.len() <= usize::MAX,
        forall|j: int| 0 <= j < v.len() ==> (keep(#[trigger] v[j]) <==> !contains_usize(lb, j as usize) && !contains_usize(lc, j as usize)),
    ensures
        free_upto(lb, lc, k).map_values(|j: usize| v[j as int]) == keep_by(v.take(k as int), v.take(k as int), keep),
    decreases k,
{
    if k == 0 {
        assert(free_upto(lb, lc, k).map_values(|j: usize| v[j as int]) =~= Seq::<char>::empty());
        assert(v.take(0) =~= Seq::<char>::empty());
    } else {
        lemma_free_labels(v, lb, lc, keep, (k - 1) as nat);
        let a = (k - 1) as usize;
        assert(v.take(k as int) =~= v.take(k - 1).push(v[k - 1]));
        lemma_keep_by_push(v.take(k - 1), v.take(k - 1), keep, v[k - 1], v[k - 1]);
        let prev = free_upto(lb, lc, (k - 1) as nat);
        assert(keep(v[k - 1]) <==> !contains_usize(lb, a) && !contains_usize(lc, a));
        if !contains_usize(lb, a) && !contains_usize(lc, a) {
            assert(prev.push(a).map_values(|j: usize| v[j as int]) =~= prev.map_values(|j: usize| v[j as int]).push(v[k - 1]));
            assert(prev.map_values(|j: usize| v[j as int]).push(v[k - 1]) =~= prev.map_values(|j: usize| v[j as int]) + seq![v[k - 1]]);
        } else {
            assert(keep_by(v.take(k - 1), v.take(k - 1), keep) + Seq::<char>::empty() =~= keep_by(v.take(k - 1), v.take(k - 1), keep));
        }
    }
}

/// The pair of shared-label tests that `dims_match` makes over the positions of `cs` is the
/// agreement of sizes over the shared labels in `cs`.
pub proof fn lemma_dims_agree(sa: Seq<usize>, ls: Seq<char>, sb: Seq<usize>, rs: Seq<char>,
    lsh: Seq<usize>, lsv: Seq<char>, rsh: Seq<usize>, rsv: Seq<char>, cs: Seq<char>, lp: Seq<usize>, rp: Seq<usize>)
    requires
        drawn_from(lsh, lsv, sa, ls), drawn_from(rsh, rsv, sb, rs), placed(lsv, cs, lp), placed(rsv, cs, rp),
        no_repeat(ls), no_repeat(rs),
    ensures
        dims_match(lsh, rsh, lp, rp) <==> forall|i: int, j: int| 0 <= i < ls.len() && 0 <= j < rs.len()
            && #[trigger] ls[i] == #[trigger] rs[j] && cs.contains(ls[i]) ==> sa[i] == sb[j],
{
    if dims_match(lsh, rsh, lp, rp) {
        assert forall|i: int, j: int| 0 <= i < ls.len() && 0 <= j < rs.len()
            && #[trigger] ls[i] == #[trigger] rs[j] && cs.contains(ls[i]) implies sa[i] == sb[j] by {
            let m = choose|m: int| 0 <= m < cs.len() && cs[m] == ls[i];
            assert(lsh[lp[m] as int] == rsh[rp[m] as int]);
            assert(drawn_at(lsh, lsv, sa, ls, lp[m] as int));
            let q = choose|q: int| 0 <= q < ls.len() && lsv[lp[m] as int] == #[trigger] ls[q] && lsh[lp[m] as int] == sa[q];
            assert(drawn_at(rsh, rsv, sb, rs, rp[m] as int));
            let q2 = choose|q: int| 0 <= q < rs.len() && rsv[rp[m] as int] == #[trigger] rs[q] && rsh[rp[m] as int] == sb[q];
            assert(q == i && q2 == j);
        }
    }
    if forall|i: int, j: int| 0 <= i < ls.len() && 0 <= j < rs.len()
        && #[trigger] ls[i] == #[trigger] rs[j] && cs.contains(ls[i]) ==> sa[i] == sb[j] {
        assert forall|m: int| 0 <= m < lp.len() implies lsh[#[trigger] lp[m] as int] == rsh[rp[m] as int] by {
            assert(drawn_at(lsh, lsv, sa, ls, lp[m] as int));
            let q = choose|q: int| 0 <= q < ls.len() && lsv[lp[m] as int] == #[trigger] ls[q] && lsh[lp[m] as int] == sa[q];
            assert(drawn_at(rsh, rsv, sb, rs, rp[m] as int));
            let q2 = choose|q: int| 0 <= q < rs.len() && rsv[rp[m] as int] == #[trigger] rs[q] && rsh[rp[m] as int] == sb[q];
            assert(ls[q] == rs[q2] && cs.contains(ls[q]));
        }
    }
}

/// The product of a pairwise contraction: batch axes, then the left free axes, then the right
/// ones; each axis carries a label and size of one of the operands.
pub proof fn lemma_product_drawn(sa: Seq<usize>, ls: Seq<char>, sb: Seq<usize>, rs: Seq<char>,
    lsh: Seq<usize>, lsv: Seq<char>, rsh: Seq<usize>, rsv: Seq<char>, batch: Seq<char>, contract: Seq<char>,
    lb: Seq<usize>, lc: Seq<usize>, rb: Seq<usize>, rc: Seq<usize>)
    requires
        drawn_from(lsh, lsv, sa, ls), drawn_from(rsh, rsv, sb, rs),
        no_repeat(lsv), no_repeat(rsv), lsv.len() <= usize::MAX, rsv.len() <= usize::MAX,
        placed(lsv, batch, lb), placed(lsv, contract, lc), placed(rsv, batch, rb), placed(rsv, contract, rc),
    ensures ({
        let ys = batch + keep_by(lsv, lsv, in_neither(batch, contract)) + keep_by(rsv, rsv, in_neither(batch, contract));
        drawn_from(dot_shape(lsh, rsh, lc, rc, lb, rb), ys, sa + sb, ls + rs)
    }),
{
    let keep = in_neither(batch, contract);
    let lf = free_upto(lb, lc, lsh.len());
    let rf = free_upto(rb, rc, rsh.len());
    assert forall|j: int| 0 <= j < lsv.len() implies (keep(#[trigger] lsv[j]) <==> !contains_usize(lb, j as usize) && !contains_usize(lc, j as usize)) by {
        lemma_placed_contains(lsv, batch, lb, j);
        lemma_placed_contains(lsv, contract, lc, j);
    }
    assert forall|j: int| 0 <= j < rsv.len() implies (keep(#[trigger] rsv[j]) <==> !contains_usize(rb, j as usize) && !contains_usize(rc, j as usize)) by {
        lemma_placed_contains(rsv, batch, rb, j);
        lemma_placed_contains(rsv, contract, rc, j);
    }
    lemma_free_labels(lsv, lb, lc, keep, lsv.len());
    lemma_free_labels(rsv, rb, rc, keep, rsv.len());
    assert(lsv.take(lsv.len() as int) =~= lsv);
    assert(rsv.take(rsv.len() as int) =~= rsv);
    lemma_free_upto_below(lb, lc, lsh.len());
    lemma_free_upto_below(rb, rc, rsh.len());
    let lk = keep_by(lsv, lsv, keep);
    let rk = keep_by(rsv, rsv, keep);
    assert(lf.map_values(|j: usize| lsv[j as int]) == lk);
    assert(rf.map_values(|j: usize| rsv[j as int]) == rk);
    let ys = batch + lk + rk;
    let d = dot_shape(lsh, rsh, lc, rc, lb, rb);
    assert(d == lb.map_values(|i: usize| lsh[i as int]) + lf.map_values(|i: usize| lsh[i as int]) + rf.map_values(|i: usize| rsh[i as int]));
    assert(d.len() == ys.len());
    let nb = batch.len() as int;
    let nl = lk.len() as int;
    assert forall|k: int| 0 <= k < ys.len() implies #[trigger] drawn_at(d, ys, sa + sb, ls + rs, k) by {
        if k < nb {
            assert(d[k] == lsh[lb[k] as int] && ys[k] == lsv[lb[k] as int]);
            assert(drawn_at(lsh, lsv, sa, ls, lb[k] as int));
            let q = choose|q: int| 0 <= q < ls.len() && lsv[lb[k] as int] == #[trigger] ls[q] && lsh[lb[k] as int] == sa[q];
            lemma_drawn_witness(d, ys, sa + sb, ls + rs, k, q);
        } else if k < nb + nl {
            let i = k - nb;
            assert(d[k] == lsh[lf[i] as int] && ys[k] == lk[i] && lk[i] == lsv[lf[i] as int]);
            assert(drawn_at(lsh, lsv, sa, ls, lf[i] as int));
            let q = choose|q: int| 0 <= q < ls.len() && lsv[lf[i] as int] == #[trigger] ls[q] && lsh[lf[i] as int] == sa[q];
            lemma_drawn_witness(d, ys, sa + sb, ls + rs, k, q);
        } else {
            let i = k - nb - nl;
            assert(d[k] == rsh[rf[i] as int] && ys[k] == rk[i] && rk[i] == rsv[rf[i] as int]);
            assert(drawn_at(rsh, rsv, sb, rs, rf[i] as int));
            let q = choose|q: int| 0 <= q < rs.len() && rsv[rf[i] as int] == #[trigger] rs[q] && rsh[rf[i] as int] == sb[q];
            lemma_drawn_witness(d, ys, sa + sb, ls + rs, k, q + ls.len());
        }
    }
}

/// Positions in `y` of the labels of `out` form a permutation of `y`'s axes exactly when
/// `out` repeats no label, given that `y` repeats none and holds only labels of `out`.
pub proof fn lemma_perm_iff(y: Seq<char>, out: Seq<char>, perm: Seq<usize>)
    requires no_repeat(y), placed(y, out, perm), forall|c: char| y.contains(c) ==> out.contains(c),
    ensures is_perm(perm, y.len()) <==> no_repeat(out),
{
    if no_repeat(out) {
        assert forall|i: int, j: int| 0 <= i < perm.len() && 0 <= j < perm.len() && i != j implies perm[i] != perm[j] by {
            assert(y[perm[i] as int] == out[i] && y[perm[j] as int] == out[j]);
        }
        assert(y.to_set() =~= out.to_set()) by {
            assert forall|c: char| out.contains(c) implies y.contains(c) by {
                let k = choose|k: int| 0 <= k < out.len() && out[k] == c;
                assert(y[perm[k] as int] == c);
            }
        }
        assert(y.no_duplicates());
        assert(out.no_duplicates());
        y.unique_seq_to_set();
        out.unique_seq_to_set();
    }
    if is_perm(perm, y.len()) {
        assert forall|i: int, j: int| 0 <= i < out.len() && 0 <= j < out.len() && i != j implies out[i] != out[j] by {
            assert(y[perm[i] as int] == out[i] && y[perm[j] as int] == out[j]);
        }
    }
}

/// Reading sizes through the positions of `out` in `y` draws each from where `y`'s were drawn.
pub proof fn lemma_drawn_perm(ys: Seq<usize>, y: Seq<char>, out: Seq<char>, perm: Seq<usize>, s: Seq<usize>, c: Seq<char>)
    requires drawn_from(ys, y, s, c), placed(y, out, perm),
    ensures drawn_from(perm.map_values(|p: usize| ys[p as int]), out, s, c),
{
    let z = perm.map_values(|p: usize| ys[p as int]);
    assert forall|k: int| 0 <= k < out.len() implies #[trigger] drawn_at(z, out, s, c, k) by {
        let p = perm[k] as int;
        assert(drawn_at(ys, y, s, c, p));
        let q = choose|q: int| 0 <= q < c.len() && y[p] == #[trigger] c[q] && ys[p] == s[q];
        assert(z[k] == ys[p] && out[k] == y[p]);
        lemma_drawn_witness(z, out, s, c, k, q);
    }
}

} // verus!
