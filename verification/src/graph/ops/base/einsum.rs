//! Einstein summation over graph nodes: repeated labels collapse to diagonals, unary
//! contractions sum and permute, and several operands fold pairwise through `dot_general`.

use vstd::prelude::*;
use crate::error::{Error, ErrorKind};
use crate::graph::{Graph, NodeId, Op};
use crate::graph::shape::{numel, numel_checked, swap_dims};
use crate::graph::infer::ceil_div;
use crate::graph::ops::base::slicing::slice_ok;
use crate::graph::ops::base::scalar::ok_id;
use crate::graph::ops::base::einsum_eq::{append_chars, expand_ellipsis, find_dots, groups_of, has_dots, once_ascending, out_of, parse_equation, ellipsis_ok, expand_spec};
use crate::text::str_chars;
use crate::graph::ops::base::einsum_fold::{diag_fits, diagonals_of, drawn_ops, lemma_arranges_iff, lemma_diagonals_agree,
    lemma_diagonals_drawn, lemma_ops_agree_within, lemma_unary_drawn, operands_agree, ops_same_dt};
use crate::graph::ops::base::einsum_fold::{drawn_items, folded, item_has, items_agree, items_dt, items_wf, lemma_agree_first_two,
    lemma_agree_one, lemma_drawn_items_pair, lemma_drawn_items_self, lemma_fold, lemma_has_concat, lemma_has_push, lemma_items_extend,
    lemma_no_repeat_push};
use crate::graph::ops::base::contract::{dims_match, dot_ok};
use crate::graph::ops::base::einsum_pair::{cross_agree, in_both_out, in_neither, in_not_out, lemma_dims_agree, lemma_drawn_perm,
    lemma_keep_by_drawn, lemma_keep_by_push, lemma_pair_labels, lemma_perm_iff, lemma_placed_axes, lemma_product_drawn, placed};

verus! {

/// No label occurs twice.
pub open spec fn no_repeat(s: Seq<char>) -> bool {
    forall|i: int, j: int| 0 <= i < s.len() && 0 <= j < s.len() && i != j ==> s[i] != s[j]
}

/// `a` and `b` hold the same labels.
pub open spec fn same_labels(a: Seq<char>, b: Seq<char>) -> bool {
    forall|c: char| a.contains(c) <==> b.contains(c)
}

/// Every label of `out` occurs in one of `groups`.
pub open spec fn covers(groups: Seq<Seq<char>>, out: Seq<char>) -> bool {
    forall|k: int| 0 <= k < out.len() ==> #[trigger] in_some(groups, out[k])
}

/// `c` occurs in one of `groups`.
pub open spec fn in_some(groups: Seq<Seq<char>>, c: char) -> bool {
    exists|g: int| 0 <= g < groups.len() && (#[trigger] groups[g]).contains(c)
}

/// The shape `s` after moving axis `p2` to place `r - 1` and axis `p1` to place `r - 2` (each
/// by one swap, skipped when already there).
pub open spec fn diag_moved<T>(s: Seq<T>, r: int, p1: int, p2: int) -> Seq<T> {
    let t1 = if p2 != r - 1 { swap_at(s, p2, r - 1) } else { s };
    if p1 != r - 2 { swap_at(t1, p1, r - 2) } else { t1 }
}

/// `s` with positions `i` and `j` exchanged.
pub open spec fn swap_at<T>(s: Seq<T>, i: int, j: int) -> Seq<T> {
    s.update(i, s[j]).update(j, s[i])
}

/// Positions with equal labels have equal sizes.
pub open spec fn label_sizes_agree(s: Seq<usize>, cs: Seq<char>) -> bool {
    forall|i: int, j: int| 0 <= i < cs.len() && 0 <= j < cs.len() && cs[i] == cs[j] ==> #[trigger] s[i] == #[trigger] s[j]
}

/// Each position of `(s2, c2)` holds the size and label of some position of `(s, c)`.
pub open spec fn drawn_from(s2: Seq<usize>, c2: Seq<char>, s: Seq<usize>, c: Seq<char>) -> bool {
    &&& s2.len() == c2.len()
    &&& s.len() == c.len()
    &&& forall|k: int| 0 <= k < c2.len() ==> #[trigger] drawn_at(s2, c2, s, c, k)
}

/// Position `k` of `(s2, c2)` holds the size and label of some position of `(s, c)`.
pub open spec fn drawn_at(s2: Seq<usize>, c2: Seq<char>, s: Seq<usize>, c: Seq<char>, k: int) -> bool {
    exists|q: int| 0 <= q < c.len() && c2[k] == #[trigger] c[q] && s2[k] == s[q]
}

pub proof fn lemma_drawn_witness(s2: Seq<usize>, c2: Seq<char>, s: Seq<usize>, c: Seq<char>, k: int, q: int)
    requires 0 <= q < c.len(), c2[k] == c[q], s2[k] == s[q],
    ensures drawn_at(s2, c2, s, c, k),
{
}

proof fn lemma_swap_agree(s: Seq<usize>, c: Seq<char>, i: int, j: int)
    requires s.len() == c.len(), 0 <= i < s.len(), 0 <= j < s.len(),
    ensures
        label_sizes_agree(swap_at(s, i, j), swap_at(c, i, j)) == label_sizes_agree(s, c),
        drawn_from(swap_at(s, i, j), swap_at(c, i, j), s, c),
        swap_at(s, i, j).len() == s.len(), swap_at(c, i, j).len() == c.len(),
{
    let s2 = swap_at(s, i, j);
    let c2 = swap_at(c, i, j);
    let m = |k: int| if k == i { j } else if k == j { i } else { k };
    assert forall|k: int| 0 <= k < s.len() implies s2[k] == s[m(k)] && c2[k] == c[m(k)] && 0 <= m(k) < s.len() && m(m(k)) == k by {}
    assert forall|k: int| 0 <= k < c2.len() implies #[trigger] drawn_at(s2, c2, s, c, k) by {
        assert(c2[k] == c[m(k)] && s2[k] == s[m(k)]);
    }
    if label_sizes_agree(s, c) {
        assert forall|a: int, b: int| 0 <= a < c2.len() && 0 <= b < c2.len() && c2[a] == c2[b] implies #[trigger] s2[a] == #[trigger] s2[b] by {
            assert(c[m(a)] == c[m(b)]);
            assert(s[m(a)] == s[m(b)]);
        }
    }
    if label_sizes_agree(s2, c2) {
        assert forall|a: int, b: int| 0 <= a < c.len() && 0 <= b < c.len() && c[a] == c[b] implies #[trigger] s[a] == #[trigger] s[b] by {
            assert(c2[m(a)] == c[a] && c2[m(b)] == c[b]);
            assert(s2[m(a)] == s2[m(b)]);
        }
    }
}

proof fn lemma_drawn_trans(s3: Seq<usize>, c3: Seq<char>, s2: Seq<usize>, c2: Seq<char>, s: Seq<usize>, c: Seq<char>)
    requires drawn_from(s3, c3, s2, c2), drawn_from(s2, c2, s, c),
    ensures drawn_from(s3, c3, s, c),
{
    assert forall|k: int| 0 <= k < c3.len() implies #[trigger] drawn_at(s3, c3, s, c, k) by {
        assert(drawn_at(s3, c3, s2, c2, k));
        let q2 = choose|q: int| 0 <= q < c2.len() && c3[k] == c2[q] && s3[k] == s2[q];
        assert(drawn_at(s2, c2, s, c, q2));
        let q1 = choose|q: int| 0 <= q < c.len() && c2[q2] == c[q] && s2[q2] == s[q];
        assert(c3[k] == c[q1] && s3[k] == s[q1]);
    }
}

/// Moving the pair keeps the agreement of sizes with labels, draws every position from the
/// original, and keeps the element count.
proof fn lemma_moved(s: Seq<usize>, c: Seq<char>, r: int, p1: int, p2: int)
    requires s.len() == r, c.len() == r, 0 <= p1 < p2 < r,
    ensures ({
        let ms = diag_moved(s, r, p1, p2);
        let mc = diag_moved(c, r, p1, p2);
        &&& ms.len() == r && mc.len() == r
        &&& label_sizes_agree(ms, mc) == label_sizes_agree(s, c)
        &&& drawn_from(ms, mc, s, c)
        &&& ms[r - 1] == s[p2] && ms[r - 2] == s[p1] && mc[r - 1] == c[p2] && mc[r - 2] == c[p1]
        &&& numel(ms) == numel(s)
    }),
{
    let t1 = if p2 != r - 1 { swap_at(s, p2, r - 1) } else { s };
    let u1 = if p2 != r - 1 { swap_at(c, p2, r - 1) } else { c };
    lemma_swap_step(s, c, p2, r - 1);
    assert(t1.len() == r && u1.len() == r);
    assert(label_sizes_agree(t1, u1) == label_sizes_agree(s, c));
    assert(drawn_from(t1, u1, s, c));
    assert(numel(t1) == numel(s));
    assert(t1[r - 1] == s[p2] && u1[r - 1] == c[p2]);
    assert(t1[p1] == s[p1] && u1[p1] == c[p1]);
    lemma_swap_step(t1, u1, p1, r - 2);
    lemma_drawn_trans(diag_moved(s, r, p1, p2), diag_moved(c, r, p1, p2), t1, u1, s, c);
}

/// One exchange of positions (or none) keeps the agreement of sizes with labels, draws
/// every position from the original, and keeps the element count.
proof fn lemma_swap_step(s: Seq<usize>, c: Seq<char>, i: int, j: int)
    requires s.len() == c.len(), 0 <= i < s.len(), 0 <= j < s.len(),
    ensures ({
        let t = if i != j { swap_at(s, i, j) } else { s };
        let u = if i != j { swap_at(c, i, j) } else { c };
        &&& t.len() == s.len() && u.len() == s.len()
        &&& label_sizes_agree(t, u) == label_sizes_agree(s, c)
        &&& drawn_from(t, u, s, c)
        &&& numel(t) == numel(s)
        &&& t[j] == s[i] && u[j] == c[i]
        &&& forall|k: int| 0 <= k < s.len() && k != i && k != j ==> t[k] == s[k] && u[k] == c[k]
    }),
{
    if i != j {
        lemma_swap_agree(s, c, i, j);
        crate::graph::shape::lemma_numel_swap(s, i, j);
        assert(swap_at(s, i, j) == swap_dims(s, i, j));
    } else {
        lemma_drawn_refl(s, c);
    }
}

/// With no label repeated, sizes agree with labels whatever they are.
proof fn lemma_no_repeat_agree(s: Seq<usize>, c: Seq<char>)
    requires no_repeat(c),
    ensures label_sizes_agree(s, c),
{
}

/// Every position is drawn from itself.
proof fn lemma_drawn_refl(s: Seq<usize>, c: Seq<char>)
    requires s.len() == c.len(),
    ensures drawn_from(s, c, s, c),
{
    assert forall|k: int| 0 <= k < c.len() implies #[trigger] drawn_at(s, c, s, c, k) by {
        lemma_drawn_witness(s, c, s, c, k, k);
    }
}

/// Dropping a last position that repeats the one before it keeps the agreement of sizes
/// with labels.
proof fn lemma_drop_dup(s: Seq<usize>, c: Seq<char>)
    requires s.len() == c.len(), s.len() >= 2, s[s.len() - 1] == s[s.len() - 2], c[c.len() - 1] == c[c.len() - 2],
    ensures
        label_sizes_agree(s.drop_last(), c.drop_last()) == label_sizes_agree(s, c),
        drawn_from(s.drop_last(), c.drop_last(), s, c),
{
    let n = s.len() - 1;
    let m = |k: int| if k == n { n - 1 } else { k };
    if label_sizes_agree(s.drop_last(), c.drop_last()) {
        assert forall|a: int, b: int| 0 <= a < c.len() && 0 <= b < c.len() && c[a] == c[b] implies #[trigger] s[a] == #[trigger] s[b] by {
            assert(c.drop_last()[m(a)] == c[a] && c.drop_last()[m(b)] == c[b]);
            assert(s.drop_last()[m(a)] == s[a] && s.drop_last()[m(b)] == s[b]);
        }
    }
    if label_sizes_agree(s, c) {
        assert forall|a: int, b: int| 0 <= a < c.drop_last().len() && 0 <= b < c.drop_last().len() && c.drop_last()[a] == c.drop_last()[b]
            implies #[trigger] s.drop_last()[a] == #[trigger] s.drop_last()[b] by {
            assert(c[a] == c[b]);
            assert(s[a] == s[b]);
        }
    }
    assert forall|k: int| 0 <= k < c.drop_last().len() implies #[trigger] drawn_at(s.drop_last(), c.drop_last(), s, c, k) by {
        assert(c.drop_last()[k] == c[k] && s.drop_last()[k] == s[k]);
    }
}

/// The position of `c` in `v`, if any.
fn position_of(v: &Vec<char>, c: char) -> (r: Option<usize>)
    ensures
        r matches Some(i) ==> i < v@.len() && v@[i as int] == c,
        r is None ==> !v@.contains(c),
{
    let mut i: usize = 0;
    while i < v.len()
        invariant i <= v@.len(), forall|k: int| 0 <= k < i ==> v@[k] != c,
        decreases v@.len() - i,
    {
        if v[i] == c {
            return Some(i);
        }
        i = i + 1;
    }
    None
}

/// The position in `v` of each label of `cs`, if all occur.
fn positions(v: &Vec<char>, cs: &Vec<char>) -> (r: Option<Vec<usize>>)
    ensures
        r is Some <==> forall|k: int| 0 <= k < cs@.len() ==> v@.contains(#[trigger] cs@[k]),
        r matches Some(p) ==> p@.len() == cs@.len()
            && forall|k: int| 0 <= k < cs@.len() ==> #[trigger] p@[k] < v@.len() && v@[p@[k] as int] == cs@[k],
{
    let mut p: Vec<usize> = Vec::new();
    let mut k: usize = 0;
    while k < cs.len()
        invariant
            k <= cs@.len(), p@.len() == k,
            forall|j: int| 0 <= j < k ==> #[trigger] p@[j] < v@.len() && v@[p@[j] as int] == cs@[j],
        decreases cs@.len() - k,
    {
        match position_of(v, cs[k]) {
            Some(i) => p.push(i),
            None => {
                assert(!v@.contains(cs@[k as int]));
                return None;
            },
        }
        k = k + 1;
    }
    assert forall|j: int| 0 <= j < cs@.len() implies v@.contains(#[trigger] cs@[j]) by {
        assert(v@[p@[j] as int] == cs@[j]);
    }
    Some(p)
}

/// Whether `v` holds `c`.
fn holds(v: &Vec<char>, c: char) -> (b: bool)
    ensures b == v@.contains(c),
{
    position_of(v, c).is_some()
}

/// The first label that occurs again (its first and last positions), if any.
fn repeat_pair(cs: &Vec<char>) -> (r: Option<(usize, usize)>)
    ensures
        r matches Some((p1, p2)) ==> p1 < p2 < cs@.len() && cs@[p1 as int] == cs@[p2 as int],
        r is None ==> no_repeat(cs@),
{
    let mut i: usize = 0;
    while i < cs.len()
        invariant i <= cs@.len(), forall|a: int, b: int| 0 <= a < i && 0 <= b < cs@.len() && a != b ==> cs@[a] != cs@[b],
        decreases cs@.len() - i,
    {
        let mut j: usize = cs.len();
        while j > i + 1
            invariant i < j <= cs@.len(), forall|b: int| j <= b < cs@.len() ==> cs@[b] != cs@[i as int],
            decreases j,
        {
            if cs[j - 1] == cs[i] {
                return Some((i, j - 1));
            }
            j = j - 1;
        }
        i = i + 1;
    }
    None
}

/// `cs` with positions `a` and `b` exchanged.
fn swap_chars(cs: &mut Vec<char>, a: usize, b: usize)
    requires a < old(cs)@.len(), b < old(cs)@.len(),
    ensures
        final(cs)@ == old(cs)@.update(a as int, old(cs)@[b as int]).update(b as int, old(cs)@[a as int]),
{
    let x = cs[a];
    let y = cs[b];
    cs.set(a, y);
    cs.set(b, x);
}

/// Node `id` of `g` is `x` with the axes whose labels `keep` rejects summed out, from the
/// last such axis to the first (positions `d..` of `labels` considered).
pub open spec fn summed(g: Graph, id: NodeId, x: NodeId, labels: Seq<char>, keep: spec_fn(char) -> bool, d: int) -> bool
    decreases labels.len() - d,
{
    if d >= labels.len() || d < 0 {
        id == x
    } else if keep(labels[d]) {
        summed(g, id, x, labels, keep, d + 1)
    } else {
        &&& g.node_is(id, Op::Sum { axis: d as usize }, seq![g.arg(id, 0)])
        &&& summed(g, g.arg(id, 0), x, labels, keep, d + 1)
    }
}

/// A chain of sums stays one as the graph grows.
pub proof fn lemma_summed_kept(g0: Graph, g1: Graph, id: NodeId, x: NodeId, labels: Seq<char>, keep: spec_fn(char) -> bool, d: int)
    requires g0.wf(), summed(g0, id, x, labels, keep, d), g1.extends(g0),
    ensures summed(g1, id, x, labels, keep, d),
    decreases labels.len() - d,
{
    if d < labels.len() && d >= 0 {
        if keep(labels[d]) {
            lemma_summed_kept(g0, g1, id, x, labels, keep, d + 1);
        } else {
            g0.lemma_arg_kept(g1, id, 0);
            lemma_summed_kept(g0, g1, g0.arg(id, 0), x, labels, keep, d + 1);
        }
    }
}

/// Node `id` of `g` contracts `lhs` (labels `ls`) with `rhs` (labels `rs`) to the labels
/// `out`: each operand has the labels that neither the other operand nor `out` holds summed
/// out; the shared labels kept by `out` are batch axes and the other shared labels are
/// contracted, at their positions in the summed operands; the product (batch labels, then the
/// free labels of the left and of the right operand) is permuted into the order of `out`.
pub open spec fn contraction_of(g: Graph, id: NodeId, lhs: NodeId, rhs: NodeId, ls: Seq<char>, rs: Seq<char>, out: Seq<char>) -> bool {
    let lsv = keep_by(ls, ls, shared_or_out(rs, out));
    let rsv = keep_by(rs, rs, shared_or_out(lsv, out));
    let batch = keep_by(lsv, lsv, in_both_out(rsv, out));
    let contract = keep_by(lsv, lsv, in_not_out(rsv, out));
    let nb = in_neither(batch, contract);
    let ys = batch + keep_by(lsv, lsv, nb) + keep_by(rsv, rsv, nb);
    let y = g.arg(id, 0);
    &&& g.srcs(id) == seq![y] && (g.opn(id) matches Op::Permute { perm } && placed(ys, out, perm@))
    &&& g.srcs(y) == seq![g.arg(y, 0), g.arg(y, 1)]
    &&& g.opn(y) matches Op::DotGeneral { lhs_contract, rhs_contract, lhs_batch, rhs_batch }
        && placed(lsv, contract, lhs_contract@) && placed(rsv, contract, rhs_contract@)
        && placed(lsv, batch, lhs_batch@) && placed(rsv, batch, rhs_batch@)
    &&& summed(g, g.arg(y, 0), lhs, ls, shared_or_out(rs, out), 0)
    &&& summed(g, g.arg(y, 1), rhs, rs, shared_or_out(lsv, out), 0)
}

/// Node `id` of `g` is a pairwise contraction: a permutation of a `dot_general` of two nodes.
pub open spec fn is_contraction(g: Graph, id: NodeId) -> bool {
    &&& g.valid(id) && g.opn(id) is Permute && g.srcs(id).len() == 1
    &&& g.opn(g.arg(id, 0)) is DotGeneral && g.srcs(g.arg(id, 0)).len() == 2
}

/// The operands' ranks.
pub open spec fn op_ranks(g: Graph, ops: Seq<NodeId>) -> Seq<usize> {
    ops.map_values(|o: NodeId| g.sh(o).len() as usize)
}

/// The equation einsum works on: `e` with any `...` expanded.
pub open spec fn einsum_eq(e: Seq<char>, ranks: Seq<usize>) -> Seq<char> {
    if has_dots(e) { expand_spec(e, ranks) } else { e }
}

/// The equation parses for `n` operands: any ellipsis expands, and there is one subscript
/// group per operand, at least one.
pub open spec fn einsum_parse_ok(e: Seq<char>, ranks: Seq<usize>, n: nat) -> bool {
    &&& has_dots(e) ==> ellipsis_ok(e, ranks)
    &&& groups_of(einsum_eq(e, ranks)).len() == n
    &&& n >= 1
}

/// Nodes an einsum of `n` operands with `t` labels in all may add.
pub open spec fn einsum_room(n: nat, t: nat) -> nat {
    6 * t + n * (t + 2) + 2
}

/// Total label count of `items`.
pub open spec fn sub_lens(items: Seq<(Vec<char>, NodeId)>) -> int
    decreases items.len(),
{
    if items.len() == 0 { 0 } else { items[0].0@.len() + sub_lens(items.drop_first()) }
}

/// The entries of `xs` whose label (the entry of `labels` at the same position) `keep`
/// accepts, in order.
pub open spec fn keep_by<T>(xs: Seq<T>, labels: Seq<char>, keep: spec_fn(char) -> bool) -> Seq<T>
    decreases xs.len(),
{
    if xs.len() == 0 {
        Seq::empty()
    } else {
        (if keep(labels[0]) { seq![xs[0]] } else { Seq::empty() }) + keep_by(xs.drop_first(), labels.drop_first(), keep)
    }
}

/// A label is kept by a pairwise sum-out when the other operand or the output has it.
pub open spec fn shared_or_out(other: Seq<char>, out: Seq<char>) -> spec_fn(char) -> bool {
    |c: char| other.contains(c) || out.contains(c)
}

/// A label is kept by a single-operand sum-out when the output has it.
pub open spec fn in_out(out: Seq<char>) -> spec_fn(char) -> bool {
    |c: char| out.contains(c)
}

/// Node `cur` of `g` is `x` with each axis `k >= d` whose label `subs[k]` is missing from
/// `out` summed out, the highest such axis first: one `Sum` node per missing label.
pub open spec fn sums_out_from(g: Graph, cur: NodeId, x: NodeId, subs: Seq<char>, out: Seq<char>, d: int) -> bool
    decreases subs.len() - d,
{
    if d >= subs.len() {
        cur == x
    } else if out.contains(subs[d]) {
        sums_out_from(g, cur, x, subs, out, d + 1)
    } else {
        &&& g.node_is(cur, Op::Sum { axis: d as usize }, seq![g.arg(cur, 0)])
        &&& sums_out_from(g, g.arg(cur, 0), x, subs, out, d + 1)
    }
}

/// A sum-out chain stays one as the graph grows.
pub proof fn lemma_sums_out_kept(g0: Graph, g1: Graph, cur: NodeId, x: NodeId, subs: Seq<char>, out: Seq<char>, d: int)
    requires g0.wf(), sums_out_from(g0, cur, x, subs, out, d), g1.extends(g0),
    ensures sums_out_from(g1, cur, x, subs, out, d),
    decreases subs.len() - d,
{
    if d < subs.len() {
        if out.contains(subs[d]) {
            lemma_sums_out_kept(g0, g1, cur, x, subs, out, d + 1);
        } else {
            g0.lemma_node_kept(g1, cur);
            lemma_sums_out_kept(g0, g1, g0.arg(cur, 0), x, subs, out, d + 1);
        }
    }
}

/// `perm` puts the labels of `subs` that `out` keeps (in their order in `subs`) in the order
/// of `out`: position `k` of the result takes the kept label `out[k]`.
#[verifier::opaque]
pub open spec fn orders_as(perm: Seq<usize>, subs: Seq<char>, out: Seq<char>) -> bool {
    &&& perm.len() == out.len()
    &&& forall|k: int| 0 <= k < out.len() ==> #[trigger] keep_by(subs, subs, in_out(out))[perm[k] as int] == out[k]
}

/// How many of the labels `subs[k]`, `k >= d`, are missing from `out`.
pub open spec fn missing_count(subs: Seq<char>, out: Seq<char>, d: int) -> nat
    decreases subs.len() - d,
{
    if d >= subs.len() {
        0
    } else {
        (if out.contains(subs[d]) { 0nat } else { 1nat }) + missing_count(subs, out, d + 1)
    }
}

/// Node `cur` of `g` is `x` under exactly `m` nested `Sum` reductions and nothing else.
pub open spec fn summed_times(g: Graph, cur: NodeId, x: NodeId, m: nat) -> bool
    decreases m,
{
    if m == 0 {
        cur == x
    } else {
        &&& g.opn(cur) is Sum && g.srcs(cur).len() == 1
        &&& summed_times(g, g.arg(cur, 0), x, (m - 1) as nat)
    }
}

/// A single-operand contraction reduces by summation only: the node it permutes is its operand
/// summed exactly once for every label missing from the output (no product, no maximum, no
/// label summed twice or left unsummed).
pub proof fn law_unary_sums_missing_labels(g: Graph, cur: NodeId, x: NodeId, subs: Seq<char>, out: Seq<char>, d: int)
    requires sums_out_from(g, cur, x, subs, out, d),
    ensures summed_times(g, cur, x, missing_count(subs, out, d)),
    decreases subs.len() - d,
{
    if d < subs.len() {
        if out.contains(subs[d]) {
            law_unary_sums_missing_labels(g, cur, x, subs, out, d + 1);
        } else {
            law_unary_sums_missing_labels(g, g.arg(cur, 0), x, subs, out, d + 1);
            assert(missing_count(subs, out, d) == missing_count(subs, out, d + 1) + 1);
        }
    }
}

/// `out` lists the labels of `ks`, each once.
pub open spec fn arranges(out: Seq<char>, ks: Seq<char>) -> bool {
    &&& out.len() == ks.len()
    &&& no_repeat(out)
    &&& forall|k: int| 0 <= k < out.len() ==> ks.contains(#[trigger] out[k])
}

/// A subsequence picked by `keep_by` repeats no label when the labels do not.
pub proof fn lemma_keep_by_no_repeat(labels: Seq<char>, keep: spec_fn(char) -> bool)
    requires no_repeat(labels),
    ensures
        no_repeat(keep_by(labels, labels, keep)),
        forall|c: char| keep_by(labels, labels, keep).contains(c) <==> labels.contains(c) && keep(c),
    decreases labels.len(),
{
    if labels.len() > 0 {
        let t = labels.drop_first();
        assert(no_repeat(t)) by {
            assert forall|i: int, j: int| 0 <= i < t.len() && 0 <= j < t.len() && i != j implies t[i] != t[j] by {
                assert(t[i] == labels[i + 1] && t[j] == labels[j + 1]);
            }
        }
        lemma_keep_by_no_repeat(t, keep);
        let rest = keep_by(t, t, keep);
        let head: Seq<char> = if keep(labels[0]) { seq![labels[0]] } else { Seq::empty() };
        let all = keep_by(labels, labels, keep);
        assert(all == head + rest);
        assert(!t.contains(labels[0])) by {
            if t.contains(labels[0]) {
                let i = choose|i: int| 0 <= i < t.len() && t[i] == labels[0];
                assert(labels[i + 1] == labels[0]);
            }
        }
        assert forall|c: char| all.contains(c) <==> labels.contains(c) && keep(c) by {
            if labels.contains(c) {
                let i = choose|i: int| 0 <= i < labels.len() && labels[i] == c;
                if i > 0 { assert(t[i - 1] == c); }
            }
            if t.contains(c) {
                let i = choose|i: int| 0 <= i < t.len() && t[i] == c;
                assert(labels[i + 1] == c);
            }
            if all.contains(c) {
                let i = choose|i: int| 0 <= i < all.len() && all[i] == c;
                if i >= head.len() { assert(rest[i - head.len()] == c); }
            }
            if rest.contains(c) {
                let i = choose|i: int| 0 <= i < rest.len() && rest[i] == c;
                assert(all[i + head.len()] == c);
            }
            if head.len() > 0 && c == labels[0] && keep(c) {
                assert(all[0] == c);
            }
        }
        assert forall|i: int, j: int| 0 <= i < all.len() && 0 <= j < all.len() && i != j implies all[i] != all[j] by {
            if i >= head.len() && j >= head.len() {
                assert(all[i] == rest[i - head.len()] && all[j] == rest[j - head.len()]);
            } else if i < head.len() {
                assert(all[i] == labels[0]);
                assert(all[j] == rest[j - head.len()]);
                assert(rest.contains(all[j]));
            } else {
                assert(all[j] == labels[0]);
                assert(all[i] == rest[i - head.len()]);
                assert(rest.contains(all[i]));
            }
        }
    }
}

/// `keep_by` keeps as many entries of any sequence of the labels' length.
pub proof fn lemma_keep_by_len<T, U>(xs: Seq<T>, ys: Seq<U>, labels: Seq<char>, keep: spec_fn(char) -> bool)
    requires xs.len() == ys.len(),
    ensures keep_by(xs, labels, keep).len() == keep_by(ys, labels, keep).len(),
    decreases xs.len(),
{
    if xs.len() > 0 {
        lemma_keep_by_len(xs.drop_first(), ys.drop_first(), labels.drop_first(), keep);
    }
}

/// One step of `keep_by` over suffixes.
proof fn lemma_keep_by_step<T>(xs: Seq<T>, labels: Seq<char>, keep: spec_fn(char) -> bool, d: int)
    requires 0 <= d < xs.len(), xs.len() == labels.len(),
    ensures keep_by(xs.skip(d), labels.skip(d), keep)
        == (if keep(labels[d]) { seq![xs[d]] } else { Seq::empty() }) + keep_by(xs.skip(d + 1), labels.skip(d + 1), keep),
{
    assert(xs.skip(d).drop_first() =~= xs.skip(d + 1));
    assert(labels.skip(d).drop_first() =~= labels.skip(d + 1));
    assert(xs.skip(d)[0] == xs[d] && labels.skip(d)[0] == labels[d]);
}

/// Removing position `d` of `pre.push(x) + rest` when `x` is dropped, or keeping it.
proof fn lemma_drop_at<T>(xs: Seq<T>, labels: Seq<char>, keep: spec_fn(char) -> bool, d: int)
    requires 0 <= d < xs.len(), xs.len() == labels.len(),
    ensures
        keep(labels[d]) ==> xs.take(d + 1) + keep_by(xs.skip(d + 1), labels.skip(d + 1), keep)
            == xs.take(d) + keep_by(xs.skip(d), labels.skip(d), keep),
        !keep(labels[d]) ==> (xs.take(d + 1) + keep_by(xs.skip(d + 1), labels.skip(d + 1), keep)).remove(d)
            == xs.take(d) + keep_by(xs.skip(d), labels.skip(d), keep),
{
    lemma_keep_by_step(xs, labels, keep, d);
    let rest = keep_by(xs.skip(d + 1), labels.skip(d + 1), keep);
    assert(xs.take(d + 1) =~= xs.take(d).push(xs[d]));
    if keep(labels[d]) {
        assert(xs.take(d + 1) + rest =~= xs.take(d) + (seq![xs[d]] + rest));
    } else {
        assert((xs.take(d + 1) + rest).remove(d) =~= xs.take(d) + (Seq::<T>::empty() + rest));
    }
}

proof fn lemma_sub_lens_push(items: Seq<(Vec<char>, NodeId)>, x: (Vec<char>, NodeId))
    ensures sub_lens(items.push(x)) == sub_lens(items) + x.0@.len(),
    decreases items.len(),
{
    if items.len() > 0 {
        assert(items.push(x).drop_first() =~= items.drop_first().push(x));
        assert(items.push(x)[0] == items[0]);
        lemma_sub_lens_push(items.drop_first(), x);
    } else {
        assert(items.push(x).drop_first() =~= Seq::<(Vec<char>, NodeId)>::empty());
        assert(items.push(x)[0] == x);
        assert(sub_lens(Seq::<(Vec<char>, NodeId)>::empty()) == 0);
    }
}

proof fn lemma_sub_lens_nonneg(items: Seq<(Vec<char>, NodeId)>)
    ensures sub_lens(items) >= 0,
    decreases items.len(),
{
    if items.len() > 0 {
        lemma_sub_lens_nonneg(items.drop_first());
    }
}

/// A prefix of the groups holds no more labels than all of them.
pub proof fn lemma_take_flat_le(gs: Seq<Seq<char>>, i: int)
    requires 0 <= i <= gs.len(),
    ensures gs.take(i).flatten_alt().len() <= gs.flatten_alt().len(),
    decreases gs.len() - i,
{
    if i < gs.len() {
        lemma_take_flat_le(gs, i + 1);
        assert(gs.take(i + 1).drop_last() =~= gs.take(i));
    } else {
        assert(gs.take(i) =~= gs);
    }
}

proof fn lemma_swap_labels(s: Seq<char>, a: int, b: int)
    requires 0 <= a < s.len(), 0 <= b < s.len(),
    ensures same_labels(s.update(a, s[b]).update(b, s[a]), s),
{
    let t = s.update(a, s[b]).update(b, s[a]);
    assert forall|x: char| t.contains(x) <==> s.contains(x) by {
        if s.contains(x) {
            let i = choose|i: int| 0 <= i < s.len() && s[i] == x;
            if i == a {
                assert(t[b] == x);
            } else if i == b {
                assert(t[a] == x);
            } else {
                assert(t[i] == x);
            }
        }
        if t.contains(x) {
            let i = choose|i: int| 0 <= i < t.len() && t[i] == x;
            if i == a {
                assert(s[b] == x);
            } else if i == b {
                assert(s[a] == x);
            } else {
                assert(s[i] == x);
            }
        }
    }
}

impl Graph {
    /// One diagonal collapse: move the two occurrences `p1 < p2` of a label to the last two
    /// axes, take their diagonal, and keep one axis for the label.
    #[verifier::spinoff_prover]
    #[verifier::rlimit(60)]
    fn diag_step(&mut self, node: NodeId, cs: Vec<char>, p1: usize, p2: usize) -> (r: Result<(NodeId, Vec<char>), Error>)
        requires
            old(self).wf(), old(self).valid(node), old(self).room(5),
            p1 < p2 < cs@.len(), cs@[p1 as int] == cs@[p2 as int], old(self).sh(node).len() >= cs@.len(),
        ensures
            final(self).wf(), final(self).grew(*old(self), 5),
            r matches Ok((n, s)) ==> final(self).valid(n) && final(self).dt(n) == old(self).dt(node)
                && s@.len() + 1 == cs@.len() && same_labels(s@, cs@) && final(self).sh(n).len() == s@.len()
                && s@ == diag_moved(cs@, cs@.len() as int, p1 as int, p2 as int).take(cs@.len() - 2).push(cs@[p1 as int]),
            old(self).sh(node).len() == cs@.len() ==> {
                let sh = old(self).sh(node);
                &&& r is Ok <==> sh[p1 as int] == sh[p2 as int] && sh[p1 as int] >= 1 && 1 <= numel(sh) <= usize::MAX
                &&& r matches Ok((n, s)) ==> final(self).sh(n)
                    == diag_moved(sh, cs@.len() as int, p1 as int, p2 as int).take(cs@.len() - 2).push(sh[p1 as int])
                    && 1 <= numel(final(self).sh(n)) <= numel(sh)
            },
    {
        let ghost s0 = self.sh(node);
        let ghost eq = s0.len() == cs@.len();
        let mut node = node;
        let mut cs = cs;
        let ghost c0 = cs@;
        let c = cs[p1];
        let r = cs.len();
        if p2 != r - 1 {
            node = ok_id(self.transpose(node, p2, r - 1));
            proof { lemma_swap_labels(cs@, p2 as int, r - 1); }
            swap_chars(&mut cs, p2, r - 1);
        }
        let ghost c1 = cs@;
        assert(same_labels(c1, c0));
        if p1 != r - 2 {
            node = ok_id(self.transpose(node, p1, r - 2));
            proof { lemma_swap_labels(cs@, p1 as int, r - 2); }
            swap_chars(&mut cs, p1, r - 2);
        }
        assert(same_labels(cs@, c0));
        assert(cs@ == diag_moved(c0, r as int, p1 as int, p2 as int));
        assert(cs@[r - 1] == c && cs@[r - 2] == c);
        let sh = self.shape(node);
        let ghost t = sh@;
        proof {
            assert(t == diag_moved(s0, r as int, p1 as int, p2 as int));
            assert(t[r - 1] == s0[p2 as int] && t[r - 2] == s0[p1 as int]);
            if p2 != r - 1 {
                crate::graph::shape::lemma_numel_swap(s0, p2 as int, r - 1);
            }
            let t1 = if p2 != r - 1 { swap_dims(s0, p2 as int, r - 1) } else { s0 };
            if p1 != r - 2 {
                crate::graph::shape::lemma_numel_swap(t1, p1 as int, r - 2);
            }
            assert(numel(t) == numel(s0));
        }
        if sh[r - 2] != sh[r - 1] {
            return Err(Error::new("einsum", ErrorKind::ShapeMismatch));
        }
        let n = sh[r - 1];
        if n == 0 {
            return Err(Error::new("einsum", ErrorKind::Invalid));
        }
        let mut head: Vec<usize> = Vec::new();
        let mut k: usize = 0;
        while k < r - 2
            invariant k <= r - 2, r - 2 <= sh@.len(), head@ == sh@.take(k as int),
            decreases r - 2 - k,
        {
            head.push(sh[k]);
            k = k + 1;
            assert(head@ =~= sh@.take(k as int));
        }
        let ghost h = head@;
        proof {
            if eq {
                assert(t =~= h.push(n).push(n));
                crate::graph::ops::base::linalg::lemma_numel_push2(h, n, n);
                crate::graph::shape::lemma_numel_nonneg(h);
                if numel(h) >= 1 {
                    assert(numel(h) <= numel(h) * n * n && n * n <= numel(h) * n * n) by (nonlinear_arith)
                        requires numel(h) >= 1, n >= 1;
                } else {
                    assert(numel(h) * n * n == 0) by (nonlinear_arith) requires numel(h) == 0;
                }
            }
        }
        let b = match numel_checked(&head) {
            Some(p) => if p == 0 { 1 } else { p },
            None => {
                return Err(Error::new("einsum", ErrorKind::Invalid));
            },
        };
        let nn = match n.checked_mul(n) {
            Some(v) => v,
            None => {
                return Err(Error::new("einsum", ErrorKind::Invalid));
            },
        };
        assert(n <= nn) by (nonlinear_arith) requires nn == n * n, n >= 1;
        assert(n + 1 <= usize::MAX) by (nonlinear_arith) requires nn == n * n, n >= 1, nn <= usize::MAX;
        if numel_checked(&sh).is_none() {
            return Err(Error::new("einsum", ErrorKind::Invalid));
        }
        let fs: Vec<usize> = vec![b, nn];
        proof {
            crate::graph::ops::nn::norm::lemma_numel2(b, nn);
            assert(fs@ =~= seq![b, nn]);
            assert(b * nn == b * (n * n));
            if eq && numel(h) >= 1 {
                assert(numel(h) * n * n == numel(h) * (n * n)) by (nonlinear_arith);
            }
        }
        let flat = self.reshape(node, fs)?;
        let ranges: Vec<(usize, usize, usize)> = vec![(0, b, 1), (0, nn, n + 1)];
        proof {
            assert(ceil_div(nn as int, (n + 1) as int) == n) by {
                assert(nn + (n + 1) - 1 == n * (n + 1)) by (nonlinear_arith) requires nn == n * n;
                vstd::arithmetic::div_mod::lemma_div_multiples_vanish(n as int, (n + 1) as int);
                assert(n * (n + 1) == (n + 1) * n) by (nonlinear_arith);
            }
            assert(ceil_div(b as int, 1) == b);
            assert(slice_ok(self.sh(flat), ranges@));
        }
        let diag = self.slice_step(flat, ranges)?;
        assert(self.sh(diag) =~= seq![b, n]);
        let mut ns = head;
        ns.push(n);
        proof {
            crate::graph::ops::nn::norm::lemma_numel2(b, n);
            assert(b * n <= b * nn) by (nonlinear_arith) requires n <= nn, b >= 1;
        }
        if numel_checked(&self.shape(diag)).is_none() {
            return Err(Error::new("einsum", ErrorKind::Invalid));
        }
        let ghost want_len = ns@.len();
        proof {
            assert(ns@ =~= h.push(n));
            assert(h.push(n).drop_last() =~= h);
            assert(numel(h.push(n)) == numel(h) * n);
        }
        node = self.reshape(diag, ns)?;
        let ghost before = cs@;
        cs.truncate(r - 2);
        cs.push(c);
        proof {
            assert(cs@ =~= before.take(r - 2).push(c));
            if eq {
                crate::graph::shape::lemma_numel_nonneg(h);
                assert(numel(h) * n <= numel(h) * n * n && (numel(h) * n * n >= 1 ==> numel(h) * n >= 1)) by (nonlinear_arith)
                    requires numel(h) >= 0, n >= 1;
            }
            assert forall|x: char| cs@.contains(x) <==> before.contains(x) by {
                if before.contains(x) {
                    let i = choose|i: int| 0 <= i < before.len() && before[i] == x;
                    if i < r - 2 {
                        assert(cs@[i] == x);
                    } else {
                        assert(cs@[r - 2] == x);
                    }
                }
                if cs@.contains(x) {
                    let i = choose|i: int| 0 <= i < cs@.len() && cs@[i] == x;
                    if i < r - 2 {
                        assert(before[i] == x);
                    } else {
                        assert(before[r - 1] == x);
                    }
                }
            }
            assert(h =~= t.take(r - 2));
        }
        Ok((node, cs))
    }

    /// Collapse every repeated label of `node` (labelled `cs`) into one axis: its diagonal.
    #[verifier::loop_isolation(false)]
    fn einsum_diag(&mut self, node: NodeId, cs: Vec<char>) -> (r: Result<(NodeId, Vec<char>), Error>)
        requires
            old(self).wf(), old(self).valid(node), old(self).room(5 * cs@.len()),
            !no_repeat(cs@) ==> old(self).sh(node).len() >= cs@.len(),
        ensures
            final(self).wf(), final(self).grew(*old(self), 5 * cs@.len()),
            r matches Ok((n, s)) ==> final(self).valid(n) && final(self).dt(n) == old(self).dt(node)
                && no_repeat(s@) && same_labels(s@, cs@) && s@.len() <= cs@.len()
                && (s@.len() < cs@.len() ==> final(self).sh(n).len() == s@.len()),
            old(self).sh(node).len() == cs@.len() ==> {
                let sh = old(self).sh(node);
                &&& r is Ok <==> no_repeat(cs@) || (label_sizes_agree(sh, cs@) && 1 <= numel(sh) <= usize::MAX)
                &&& r matches Ok((n, s)) ==> drawn_from(final(self).sh(n), s@, sh, cs@)
            },
            no_repeat(cs@) ==> (r matches Ok((n, s)) && n == node && s@ == cs@) && *final(self) == *old(self),
    {
        let ghost g0 = *self;
        let ghost c0 = cs@;
        let ghost n0 = node;
        let ghost s0 = g0.sh(n0);
        let ghost eq = s0.len() == c0.len();
        let mut node = node;
        let mut cs = cs;
        proof {
            if eq {
                lemma_drawn_refl(s0, c0);
            }
        }
        loop
            invariant
                self.wf(), self.grew(g0, 5 * (c0.len() - cs@.len()) as nat), cs@.len() <= c0.len(),
                cs@.len() < c0.len() ==> !no_repeat(c0),
                self.valid(node), self.dt(node) == g0.dt(n0),
                same_labels(cs@, c0),
                !no_repeat(cs@) ==> self.sh(node).len() >= cs@.len(),
                cs@.len() < c0.len() ==> self.sh(node).len() == cs@.len(),
                cs@.len() == c0.len() ==> node == n0 && cs@ == c0 && *self == g0,
                eq ==> self.sh(node).len() == cs@.len()
                    && label_sizes_agree(self.sh(node), cs@) == label_sizes_agree(s0, c0)
                    && drawn_from(self.sh(node), cs@, s0, c0),
                eq && cs@.len() < c0.len() ==> 1 <= numel(s0) <= usize::MAX && 1 <= numel(self.sh(node)) <= usize::MAX,
            decreases cs@.len(),
        {
            let (p1, p2) = match repeat_pair(&cs) {
                Some(p) => p,
                None => {
                    proof {
                        if eq {
                            lemma_no_repeat_agree(self.sh(node), cs@);
                        }
                    }
                    return Ok((node, cs));
                },
            };
            let ghost before = cs@;
            let ghost sb = self.sh(node);
            proof {
                assert(before[p1 as int] == before[p2 as int]);
                assert(!no_repeat(before));
                if eq && label_sizes_agree(s0, c0) && 1 <= numel(s0) <= usize::MAX {
                    assert(sb[p1 as int] == sb[p2 as int]);
                    if sb[p1 as int] == 0 {
                        crate::graph::shape::lemma_numel_zero(sb, p1 as int);
                    }
                }
            }
            let (n2, c2) = self.diag_step(node, cs, p1, p2)?;
            node = n2;
            cs = c2;
            assert forall|x: char| cs@.contains(x) <==> c0.contains(x) by {
                assert(cs@.contains(x) <==> before.contains(x));
            }
            proof {
                if eq {
                    let rr = before.len() as int;
                    let ms = diag_moved(sb, rr, p1 as int, p2 as int);
                    let mc = diag_moved(before, rr, p1 as int, p2 as int);
                    lemma_moved(sb, before, rr, p1 as int, p2 as int);
                    assert(self.sh(node) =~= ms.drop_last());
                    assert(cs@ =~= mc.drop_last());
                    lemma_drop_dup(ms, mc);
                    lemma_drawn_trans(self.sh(node), cs@, ms, mc, sb, before);
                    lemma_drawn_trans(self.sh(node), cs@, sb, before, s0, c0);
                }
            }
        }
    }

    /// Single-operand contraction: sum out the labels missing from `out`, then order the
    /// rest as `out`.
    #[verifier::loop_isolation(false)]
    #[verifier::spinoff_prover]
    #[verifier::rlimit(30)]
    fn einsum_unary(&mut self, subs: &Vec<char>, out: &Vec<char>, x: NodeId) -> (r: Result<NodeId, Error>)
        requires old(self).wf(), old(self).valid(x), old(self).room(subs@.len() + 1),
        ensures
            final(self).wf(), final(self).grew(*old(self), subs@.len() + 1),
            r matches Ok(id) ==> final(self).valid(id) && final(self).dt(id) == old(self).dt(x)
                && final(self).sh(id).len() == out@.len(),
            r matches Ok(id) ==> final(self).opn(id) is Permute && final(self).srcs(id).len() == 1
                && sums_out_from(*final(self), final(self).arg(id, 0), x, subs@, out@, 0),
            r matches Ok(id) ==> (final(self).opn(id) matches Op::Permute { perm } && orders_as(perm@, subs@, out@)),
            old(self).sh(x).len() == subs@.len() && no_repeat(subs@) ==> {
                let ks = keep_by(subs@, subs@, in_out(out@));
                let kept = keep_by(old(self).sh(x), subs@, in_out(out@));
                &&& r is Ok <==> (old(self).dt(x).spec_is_arith()
                        || forall|k: int| 0 <= k < subs@.len() ==> #[trigger] out@.contains(subs@[k]))
                    && arranges(out@, ks)
                &&& r matches Ok(id) ==> forall|k: int| 0 <= k < out@.len() ==>
                    exists|j: int| 0 <= j < ks.len() && ks[j] == out@[k] && #[trigger] final(self).sh(id)[k] == kept[j]
            },
    {
        let ghost g0 = *self;
        let ghost keep = in_out(out@);
        let ghost sh0 = self.sh(x);
        let ghost eq = sh0.len() == subs@.len();
        let mut cur = x;
        let mut cs = crate::graph::op::copy_vec(subs);
        let mut d = cs.len();
        proof {
            assert(subs@.take(d as int) =~= subs@);
            assert(subs@.skip(d as int) =~= Seq::<char>::empty());
            assert(sh0.skip(d as int).len() == 0 ==> keep_by(sh0.skip(d as int), subs@.skip(d as int), keep) =~= Seq::<usize>::empty());
        }
        while d > 0
            invariant
                d <= cs@.len(), cs@.len() <= subs@.len(), self.wf(), self.grew(g0, (subs@.len() - d) as nat),
                self.valid(cur), self.dt(cur) == g0.dt(x), d <= subs@.len(),
                cs@ == subs@.take(d as int) + keep_by(subs@.skip(d as int), subs@.skip(d as int), keep),
                eq ==> self.sh(cur) == sh0.take(d as int) + keep_by(sh0.skip(d as int), subs@.skip(d as int), keep),
                forall|k: int| d <= k < subs@.len() && !keep(subs@[k]) ==> g0.dt(x).spec_is_arith(),
                sums_out_from(*self, cur, x, subs@, out@, d as int),
            decreases d,
        {
            d = d - 1;
            assert(cs@[d as int] == subs@[d as int]);
            proof {
                lemma_drop_at(subs@, subs@, keep, d as int);
                if eq {
                    lemma_drop_at(sh0, subs@, keep, d as int);
                    lemma_keep_by_len(sh0.skip(d + 1), subs@.skip(d + 1), subs@.skip(d + 1), keep);
                    assert(self.sh(cur).len() == cs@.len());
                }
            }
            let ghost gp = *self;
            let ghost prev = cur;
            if !holds(out, cs[d]) {
                assert(!keep(subs@[d as int]));
                cur = self.sum(cur, d)?;
                proof {
                    lemma_sums_out_kept(gp, *self, prev, x, subs@, out@, d + 1);
                    assert(!out@.contains(subs@[d as int]));
                }
                cs.remove(d);
            } else {
                assert(keep(subs@[d as int]));
                assert(out@.contains(subs@[d as int]));
            }
        }
        let ghost ks = keep_by(subs@, subs@, keep);
        proof {
            assert(subs@.take(0) + keep_by(subs@.skip(0), subs@.skip(0), keep) =~= ks);
            assert(subs@.skip(0) =~= subs@ && sh0.skip(0) =~= sh0);
            assert(sh0.take(0) + keep_by(sh0, subs@, keep) =~= keep_by(sh0, subs@, keep));
            if eq {
                lemma_keep_by_len(sh0, subs@, subs@, keep);
            }
        }
        assert(cs@ == ks);
        let mut perm: Vec<usize> = Vec::new();
        let mut k: usize = 0;
        while k < out.len()
            invariant
                k <= out@.len(), perm@.len() == k, cs@ == ks,
                forall|j: int| 0 <= j < k ==> #[trigger] perm@[j] < cs@.len() && cs@[perm@[j] as int] == out@[j],
            decreases out@.len() - k,
        {
            match position_of(&cs, out[k]) {
                Some(p) => perm.push(p),
                None => {
                    assert(!ks.contains(out@[k as int]));
                    return Err(Error::new("einsum", ErrorKind::Invalid));
                },
            }
            k = k + 1;
        }
        let ghost pm = perm@;
        let ghost sc = self.sh(cur);
        proof {
            if eq && no_repeat(subs@) {
                lemma_keep_by_no_repeat(subs@, keep);
                assert(forall|j: int| 0 <= j < out@.len() ==> ks.contains(#[trigger] out@[j])) by {
                    assert forall|j: int| 0 <= j < out@.len() implies ks.contains(#[trigger] out@[j]) by {
                        assert(ks[pm[j] as int] == out@[j]);
                    }
                }
                // a permutation exactly when `out` arranges the kept labels
                if crate::graph::shape::is_perm(pm, sc.len()) {
                    assert(no_repeat(out@)) by {
                        assert forall|i: int, j: int| 0 <= i < out@.len() && 0 <= j < out@.len() && i != j
                            implies out@[i] != out@[j] by {
                            assert(pm[i] != pm[j]);
                            assert(ks[pm[i] as int] == out@[i] && ks[pm[j] as int] == out@[j]);
                        }
                    }
                }
                if arranges(out@, ks) {
                    assert forall|i: int, j: int| 0 <= i < pm.len() && 0 <= j < pm.len() && i != j
                        implies pm[i] != pm[j] by {
                        assert(ks[pm[i] as int] == out@[i] && ks[pm[j] as int] == out@[j]);
                    }
                    assert forall|i: int| 0 <= i < pm.len() implies #[trigger] pm[i] < sc.len() by {}
                    assert(crate::graph::shape::is_perm(pm, sc.len()));
                }
            }
        }
        let ghost gq = *self;
        proof {
            reveal(orders_as);
            assert(orders_as(perm@, subs@, out@));
        }
        let res = self.permute(cur, perm);
        proof {
            if res is Ok {
                lemma_sums_out_kept(gq, *self, cur, x, subs@, out@, 0);
            }
            if eq && no_repeat(subs@) {
                if res is Ok {
                    let id = res->Ok_0;
                    assert forall|k: int| 0 <= k < out@.len() implies
                        exists|j: int| 0 <= j < ks.len() && ks[j] == out@[k] && #[trigger] self.sh(id)[k] == keep_by(sh0, subs@, keep)[j] by {
                        assert(self.sh(id)[k] == sc[pm[k] as int]);
                        assert(ks[pm[k] as int] == out@[k]);
                    }
                }
            }
        }
        res
    }

    /// Sum out of `node` (labels `subs`) every label found in neither `other` nor `out`.
    #[verifier::loop_isolation(false)]
    fn einsum_sum_unshared(&mut self, subs: &Vec<char>, other: &Vec<char>, out: &Vec<char>, node: NodeId)
        -> (r: Result<(NodeId, Vec<char>), Error>)
        requires old(self).wf(), old(self).valid(node), old(self).room(subs@.len() as nat),
        ensures
            final(self).wf(), final(self).grew(*old(self), subs@.len() as nat),
            r matches Ok((n, s)) ==> final(self).valid(n) && final(self).dt(n) == old(self).dt(node)
                && s@.len() <= subs@.len()
                && s@ == keep_by(subs@, subs@, shared_or_out(other@, out@)),
            old(self).sh(node).len() == subs@.len() ==> {
                &&& r is Ok <==> old(self).dt(node).spec_is_arith()
                    || forall|k: int| 0 <= k < subs@.len() ==> #[trigger] shared_or_out(other@, out@)(subs@[k])
                &&& r matches Ok((n, s)) ==> final(self).sh(n) == keep_by(old(self).sh(node), subs@, shared_or_out(other@, out@))
            },
            r matches Ok((n, s)) ==> summed(*final(self), n, node, subs@, shared_or_out(other@, out@), 0),
    {
        let ghost g0 = *self;
        let ghost keep = shared_or_out(other@, out@);
        let ghost sh0 = self.sh(node);
        let ghost eq = sh0.len() == subs@.len();
        let mut cur = node;
        let mut cs = crate::graph::op::copy_vec(subs);
        let mut d = cs.len();
        proof {
            assert(subs@.take(d as int) =~= subs@);
            assert(subs@.skip(d as int) =~= Seq::<char>::empty());
            assert(sh0.skip(d as int).len() == 0 ==> keep_by(sh0.skip(d as int), subs@.skip(d as int), keep) =~= Seq::<usize>::empty());
        }
        while d > 0
            invariant
                d <= cs@.len(), cs@.len() <= subs@.len(), self.wf(), self.grew(g0, (subs@.len() - d) as nat),
                self.valid(cur), self.dt(cur) == g0.dt(node),
                d <= subs@.len(),
                cs@ == subs@.take(d as int) + keep_by(subs@.skip(d as int), subs@.skip(d as int), keep),
                eq ==> self.sh(cur) == sh0.take(d as int) + keep_by(sh0.skip(d as int), subs@.skip(d as int), keep),
                forall|k: int| d <= k < subs@.len() && !keep(subs@[k]) ==> g0.dt(node).spec_is_arith(),
                summed(*self, cur, node, subs@, keep, d as int),
            decreases d,
        {
            let ghost gd = *self;
            let ghost cur0 = cur;
            d = d - 1;
            assert(cs@[d as int] == subs@[d as int]);
            proof {
                lemma_drop_at(subs@, subs@, keep, d as int);
                if eq {
                    lemma_drop_at(sh0, subs@, keep, d as int);
                    lemma_keep_by_len(sh0.skip(d + 1), subs@.skip(d + 1), subs@.skip(d + 1), keep);
                    assert(self.sh(cur).len() == cs@.len());
                }
            }
            if !holds(other, cs[d]) && !holds(out, cs[d]) {
                assert(!keep(subs@[d as int]));
                cur = self.sum(cur, d)?;
                proof {
                    lemma_summed_kept(gd, *self, cur0, node, subs@, keep, d + 1);
                }
                cs.remove(d);
            } else {
                assert(keep(subs@[d as int]));
            }
        }
        proof {
            assert(subs@.take(0) + keep_by(subs@.skip(0), subs@.skip(0), keep) =~= keep_by(subs@, subs@, keep));
            assert(subs@.skip(0) =~= subs@ && sh0.skip(0) =~= sh0);
            assert(sh0.take(0) + keep_by(sh0, subs@, keep) =~= keep_by(sh0, subs@, keep));
        }
        Ok((cur, cs))
    }

    /// Two-operand contraction to labels `out`: sum unshared labels, batch the shared labels
    /// kept in `out`, contract the other shared ones, then order as `out`.
    #[verifier::loop_isolation(false)]
    fn einsum_binary(&mut self, ls: &Vec<char>, rs: &Vec<char>, lhs: NodeId, rhs: NodeId, out: &Vec<char>)
        -> (r: Result<NodeId, Error>)
        requires
            old(self).wf(), old(self).valid(lhs), old(self).valid(rhs),
            old(self).room(ls@.len() + rs@.len() + 2),
        ensures
            final(self).wf(), final(self).grew(*old(self), ls@.len() + rs@.len() + 2),
            r matches Ok(id) ==> final(self).valid(id) && final(self).dt(id) == old(self).dt(lhs)
                && old(self).dt(lhs) == old(self).dt(rhs) && final(self).sh(id).len() == out@.len(),
            old(self).sh(lhs).len() == ls@.len() && old(self).sh(rhs).len() == rs@.len()
                && no_repeat(ls@) && no_repeat(rs@) ==> {
                let sa = old(self).sh(lhs);
                let sb = old(self).sh(rhs);
                &&& r is Ok <==> old(self).dt(lhs) == old(self).dt(rhs) && old(self).dt(lhs).spec_is_arith()
                    && cross_agree(sa, ls@, sb, rs@) && no_repeat(out@)
                    && forall|k: int| 0 <= k < out@.len() ==> ls@.contains(#[trigger] out@[k]) || rs@.contains(out@[k])
                &&& r matches Ok(id) ==> drawn_from(final(self).sh(id), out@, sa + sb, ls@ + rs@)
            },
            r matches Ok(id) ==> is_contraction(*final(self), id),
            r matches Ok(id) ==> contraction_of(*final(self), id, lhs, rhs, ls@, rs@, out@),
    {
        let ghost g0 = *self;
        let ghost sa = g0.sh(lhs);
        let ghost sb = g0.sh(rhs);
        let ghost h = sa.len() == ls@.len() && sb.len() == rs@.len() && no_repeat(ls@) && no_repeat(rs@);
        let (l, lsv) = self.einsum_sum_unshared(ls, rs, out, lhs)?;
        let ghost gl = *self;
        assert(self.sh(rhs) == sb);
        let (r, rsv) = self.einsum_sum_unshared(rs, &lsv, out, rhs)?;
        let ghost gr = *self;
        assert(self.sh(l) == keep_by(sa, ls@, shared_or_out(rs@, out@)) || !h);
        proof {
            if h {
                lemma_keep_by_drawn(sa, ls@, shared_or_out(rs@, out@));
                lemma_keep_by_drawn(sb, rs@, shared_or_out(lsv@, out@));
            }
        }
        let mut batch: Vec<char> = Vec::new();
        let mut contract: Vec<char> = Vec::new();
        let mut k: usize = 0;
        proof {
            assert(lsv@.take(0) =~= Seq::<char>::empty());
            assert(batch@ =~= keep_by(lsv@.take(0), lsv@.take(0), in_both_out(rsv@, out@)));
            assert(contract@ =~= keep_by(lsv@.take(0), lsv@.take(0), in_not_out(rsv@, out@)));
        }
        while k < lsv.len()
            invariant
                k <= lsv@.len(),
                batch@ == keep_by(lsv@.take(k as int), lsv@.take(k as int), in_both_out(rsv@, out@)),
                contract@ == keep_by(lsv@.take(k as int), lsv@.take(k as int), in_not_out(rsv@, out@)),
            decreases lsv@.len() - k,
        {
            let c = lsv[k];
            proof {
                assert(lsv@.take(k + 1) =~= lsv@.take(k as int).push(c));
                lemma_keep_by_push(lsv@.take(k as int), lsv@.take(k as int), in_both_out(rsv@, out@), c, c);
                lemma_keep_by_push(lsv@.take(k as int), lsv@.take(k as int), in_not_out(rsv@, out@), c, c);
            }
            let ghost b0 = batch@;
            let ghost c0 = contract@;
            if holds(&rsv, c) {
                if holds(out, c) {
                    batch.push(c);
                } else {
                    contract.push(c);
                }
            }
            proof {
                assert(batch@ =~= b0 + (if in_both_out(rsv@, out@)(c) { seq![c] } else { Seq::<char>::empty() }));
                assert(contract@ =~= c0 + (if in_not_out(rsv@, out@)(c) { seq![c] } else { Seq::<char>::empty() }));
            }
            k = k + 1;
        }
        let ghost nb = in_neither(batch@, contract@);
        proof {
            assert(lsv@.take(lsv@.len() as int) =~= lsv@);
            if h {
                lemma_pair_labels(ls@, rs@, out@, lsv@, rsv@, batch@, contract@,
                    keep_by(lsv@, lsv@, nb), keep_by(rsv@, rsv@, nb));
                assert forall|j: int| 0 <= j < contract@.len() implies lsv@.contains(#[trigger] contract@[j]) && rsv@.contains(contract@[j]) by {
                    assert(contract@.contains(contract@[j]));
                }
                assert forall|j: int| 0 <= j < batch@.len() implies lsv@.contains(#[trigger] batch@[j]) && rsv@.contains(batch@[j]) by {
                    assert(batch@.contains(batch@[j]));
                }
            }
        }
        let lc = match positions(&lsv, &contract) { Some(v) => v, None => { return Err(Error::new("einsum", ErrorKind::Invalid)); } };
        let rc = match positions(&rsv, &contract) { Some(v) => v, None => { return Err(Error::new("einsum", ErrorKind::Invalid)); } };
        let lb = match positions(&lsv, &batch) { Some(v) => v, None => { return Err(Error::new("einsum", ErrorKind::Invalid)); } };
        let rb = match positions(&rsv, &batch) { Some(v) => v, None => { return Err(Error::new("einsum", ErrorKind::Invalid)); } };
        let ghost lsh = self.sh(l);
        let ghost rsh = self.sh(r);
        proof {
            if h {
                let bc = batch@ + contract@;
                let lbc = lb@ + lc@;
                assert(placed(lsv@, bc, lbc)) by {
                    assert forall|j: int| 0 <= j < bc.len() implies #[trigger] lbc[j] < lsv@.len() && lsv@[lbc[j] as int] == bc[j] by {
                        if j < batch@.len() {
                            assert(lbc[j] == lb@[j] && bc[j] == batch@[j]);
                        } else {
                            assert(lbc[j] == lc@[j - batch@.len()] && bc[j] == contract@[j - batch@.len()]);
                        }
                    }
                }
                let rbc = rb@ + rc@;
                assert(placed(rsv@, bc, rbc)) by {
                    assert forall|j: int| 0 <= j < bc.len() implies #[trigger] rbc[j] < rsv@.len() && rsv@[rbc[j] as int] == bc[j] by {
                        if j < batch@.len() {
                            assert(rbc[j] == rb@[j] && bc[j] == batch@[j]);
                        } else {
                            assert(rbc[j] == rc@[j - batch@.len()] && bc[j] == contract@[j - batch@.len()]);
                        }
                    }
                }
                lemma_placed_axes(lsv@, bc, lbc);
                lemma_placed_axes(rsv@, bc, rbc);
                lemma_dims_agree(sa, ls@, sb, rs@, lsh, lsv@, rsh, rsv@, batch@, lb@, rb@);
                lemma_dims_agree(sa, ls@, sb, rs@, lsh, lsv@, rsh, rsv@, contract@, lc@, rc@);
                assert(cross_agree(sa, ls@, sb, rs@) <==> dims_match(lsh, rsh, lb@, rb@) && dims_match(lsh, rsh, lc@, rc@)) by {
                    if dims_match(lsh, rsh, lb@, rb@) && dims_match(lsh, rsh, lc@, rc@) {
                        assert forall|i: int, j: int| 0 <= i < ls@.len() && 0 <= j < rs@.len() && #[trigger] ls@[i] == #[trigger] rs@[j]
                            implies sa[i] == sb[j] by {
                            assert(ls@.contains(ls@[i]) && rs@.contains(ls@[i]));
                            assert(bc.contains(ls@[i]));
                        }
                    }
                }
                assert(dot_ok(lsh, rsh, lc@, rc@, lb@, rb@) <==> cross_agree(sa, ls@, sb, rs@));
            }
        }
        let y = self.dot_general(l, r, lc, rc, lb, rb)?;
        let ghost ysh = self.sh(y);
        let mut y_subs = crate::graph::op::copy_vec(&batch);
        let mut k: usize = 0;
        proof {
            assert(lsv@.take(0) =~= Seq::<char>::empty());
            assert(y_subs@ =~= batch@ + keep_by(lsv@.take(0), lsv@.take(0), nb));
        }
        while k < lsv.len()
            invariant
                k <= lsv@.len(),
                y_subs@ == batch@ + keep_by(lsv@.take(k as int), lsv@.take(k as int), nb),
            decreases lsv@.len() - k,
        {
            let ghost y0 = y_subs@;
            let c = lsv[k];
            proof {
                assert(lsv@.take(k + 1) =~= lsv@.take(k as int).push(c));
                lemma_keep_by_push(lsv@.take(k as int), lsv@.take(k as int), nb, c, c);
            }
            if !holds(&batch, lsv[k]) && !holds(&contract, lsv[k]) {
                y_subs.push(lsv[k]);
            }
            proof {
                assert(y_subs@ =~= y0 + (if nb(c) { seq![c] } else { Seq::<char>::empty() }));
            }
            k = k + 1;
        }
        proof {
            assert(lsv@.take(lsv@.len() as int) =~= lsv@);
            assert(rsv@.take(0) =~= Seq::<char>::empty());
            assert(y_subs@ =~= batch@ + keep_by(lsv@, lsv@, nb) + keep_by(rsv@.take(0), rsv@.take(0), nb));
        }
        let mut k: usize = 0;
        while k < rsv.len()
            invariant
                k <= rsv@.len(),
                y_subs@ == batch@ + keep_by(lsv@, lsv@, nb) + keep_by(rsv@.take(k as int), rsv@.take(k as int), nb),
            decreases rsv@.len() - k,
        {
            let ghost y0 = y_subs@;
            let c = rsv[k];
            proof {
                assert(rsv@.take(k + 1) =~= rsv@.take(k as int).push(c));
                lemma_keep_by_push(rsv@.take(k as int), rsv@.take(k as int), nb, c, c);
            }
            if !holds(&batch, rsv[k]) && !holds(&contract, rsv[k]) {
                y_subs.push(rsv[k]);
            }
            proof {
                assert(y_subs@ =~= y0 + (if nb(c) { seq![c] } else { Seq::<char>::empty() }));
            }
            k = k + 1;
        }
        proof {
            assert(rsv@.take(rsv@.len() as int) =~= rsv@);
            if h {
                lemma_product_drawn(sa, ls@, sb, rs@, lsh, lsv@, rsh, rsv@, batch@, contract@, lb@, lc@, rb@, rc@);
                assert forall|j: int| 0 <= j < out@.len() implies (y_subs@.contains(#[trigger] out@[j]) <==> ls@.contains(out@[j]) || rs@.contains(out@[j])) by {
                    assert(out@.contains(out@[j]));
                }
            }
        }
        let perm = match positions(&y_subs, out) { Some(v) => v, None => { return Err(Error::new("einsum", ErrorKind::Invalid)); } };
        proof {
            if h {
                lemma_perm_iff(y_subs@, out@, perm@);
                lemma_drawn_perm(ysh, y_subs@, out@, perm@, sa + sb, ls@ + rs@);
            }
        }
        let ghost gy = *self;
        let res = self.permute(y, perm);
        proof {
            lemma_summed_kept(gl, *self, l, lhs, ls@, shared_or_out(rs@, out@), 0);
            lemma_summed_kept(gr, *self, r, rhs, rs@, shared_or_out(lsv@, out@), 0);
            assert(self.nodes@[y.0 as int] == gy.nodes@[y.0 as int]);
        }
        res
    }

    /// Fold the operands pairwise, front first; each fold keeps only the labels still needed
    /// by the output or a later operand, the last fold produces `out`.
    #[verifier::loop_isolation(false)]
    #[verifier::spinoff_prover]
    #[verifier::rlimit(60)]
    fn einsum_multi(&mut self, items: Vec<(Vec<char>, NodeId)>, out: &Vec<char>, Ghost(t): Ghost<nat>,
        Ghost(d0): Ghost<crate::dtype::DType>) -> (r: Result<NodeId, Error>)
        requires
            old(self).wf(), items@.len() >= 2, sub_lens(items@) <= t,
            forall|k: int| 0 <= k < items@.len() ==> old(self).valid(#[trigger] items@[k].1),
            exists|k: int| 0 <= k < items@.len() && old(self).dt(#[trigger] items@[k].1) == d0,
            old(self).room(items@.len() * (t + 2)),
        ensures
            final(self).wf(), final(self).grew(*old(self), items@.len() * (t + 2)),
            r matches Ok(id) ==> final(self).valid(id) && final(self).dt(id) == d0
                && final(self).sh(id).len() == out@.len(),
            items_wf(*old(self), items@) ==> {
                &&& r is Ok <==> items_dt(*old(self), items@, d0) && d0.spec_is_arith() && items_agree(*old(self), items@)
                    && no_repeat(out@) && forall|k: int| 0 <= k < out@.len() ==> item_has(items@, #[trigger] out@[k])
                &&& r matches Ok(id) ==> drawn_items(final(self).sh(id), out@, *old(self), items@)
            },
            r matches Ok(id) ==> is_contraction(*final(self), id),
            items@.len() == 2 ==> (r matches Ok(id) ==> contraction_of(*final(self), id, items@[0].1, items@[1].1,
                items@[0].0@, items@[1].0@, out@)),
    {
        let ghost g0 = *self;
        let ghost n0 = items@.len();
        let ghost items0 = items@;
        let ghost hw = items_wf(g0, items0);
        let ghost p0 = items_dt(g0, items0, d0) && d0.spec_is_arith() && items_agree(g0, items0);
        let ghost cov0 = forall|k: int| 0 <= k < out@.len() ==> item_has(items0, #[trigger] out@[k]);
        let mut items = items;
        proof {
            if hw {
                assert forall|k: int| 0 <= k < items0.len() implies
                    drawn_items(g0.sh((#[trigger] items0[k]).1), items0[k].0@, g0, items0) by {
                    lemma_drawn_items_self(g0, items0, k);
                }
            }
        }
        while items.len() > 1
            invariant
                1 <= items@.len() <= n0, self.wf(),
                self.grew(g0, ((n0 - items@.len()) * (t + 2)) as nat),
                forall|k: int| 0 <= k < items@.len() ==> self.valid(#[trigger] items@[k].1),
                exists|k: int| 0 <= k < items@.len() && self.dt(#[trigger] items@[k].1) == d0,
                items@.len() > 1 ==> sub_lens(items@) <= t,
                items@.len() == 1 ==> self.sh(items@[0].1).len() == out@.len(),
                hw ==> items_wf(*self, items@),
                hw ==> p0 == (items_dt(*self, items@, d0) && d0.spec_is_arith() && items_agree(*self, items@)),
                hw ==> cov0 == forall|k: int| 0 <= k < out@.len() ==> item_has(items@, #[trigger] out@[k]),
                hw ==> forall|k: int| 0 <= k < items@.len() ==> drawn_items(self.sh((#[trigger] items@[k]).1), items@[k].0@, g0, items0),
                hw && items@.len() == 1 ==> items@[0].0@ == out@ && no_repeat(out@) && d0.spec_is_arith(),
                n0 == 2 && items@.len() == 1 ==> contraction_of(*self, items@[0].1, items0[0].1, items0[1].1,
                    items0[0].0@, items0[1].0@, out@),
                n0 == 2 && items@.len() == 2 ==> items@ == items0,
                items@.len() == 1 ==> is_contraction(*self, items@[0].1),
            decreases items@.len(),
        {
            let ghost s0 = items@;
            let ghost gb = *self;
            let (sa, a) = items.remove(0);
            let (sb, b) = items.remove(0);
            proof {
                lemma_sub_lens_nonneg(s0.drop_first().drop_first());
                assert(s0.drop_first().drop_first() =~= items@);
                assert(s0.skip(2) =~= items@);
                assert(s0[1] == s0.drop_first()[0]);
                assert(sub_lens(s0) == s0[0].0@.len() + sub_lens(s0.drop_first()));
                assert(sub_lens(s0.drop_first()) == s0.drop_first()[0].0@.len() + sub_lens(s0.drop_first().drop_first()));
                assert(sub_lens(s0) == sa@.len() + sb@.len() + sub_lens(items@));
                if hw {
                    assert(s0[0] == (sa, a) && s0[1] == (sb, b));
                    if items_agree(*self, s0) {
                        lemma_agree_first_two(*self, s0);
                    }
                }
            }
            let target = if items.len() == 0 {
                crate::graph::op::copy_vec(out)
            } else {
                let mut keep = crate::graph::op::copy_vec(out);
                let mut k: usize = 0;
                while k < items.len()
                    invariant k <= items@.len(),
                        forall|c: char| keep@.contains(c) <==> out@.contains(c) || item_has(items@.take(k as int), c),
                    decreases items@.len() - k,
                {
                    let ghost k0 = keep@;
                    append_chars(&mut keep, &items[k].0);
                    proof {
                        assert forall|c: char| keep@.contains(c) <==> out@.contains(c) || item_has(items@.take(k + 1), c) by {
                            lemma_has_concat(k0, items@[k as int].0@, c);
                            assert(items@.take(k + 1)[k as int] == items@[k as int]);
                            if item_has(items@.take(k + 1), c) {
                                let j = choose|j: int| 0 <= j < k + 1 && (#[trigger] items@.take(k + 1)[j]).0@.contains(c);
                                if j < k {
                                    assert(items@.take(k as int)[j] == items@.take(k + 1)[j]);
                                }
                            }
                            if item_has(items@.take(k as int), c) {
                                let j = choose|j: int| 0 <= j < k && (#[trigger] items@.take(k as int)[j]).0@.contains(c);
                                assert(items@.take(k as int)[j] == items@.take(k + 1)[j]);
                            }
                        }
                    }
                    k = k + 1;
                }
                assert(items@.take(items@.len() as int) =~= items@);
                let mut inter: Vec<char> = Vec::new();
                let mut k: usize = 0;
                while k < sa.len()
                    invariant k <= sa@.len(), inter@.len() <= k, no_repeat(inter@),
                        forall|c: char| inter@.contains(c) <==> keep@.contains(c) && sa@.take(k as int).contains(c),
                    decreases sa@.len() - k,
                {
                    let ghost i0 = inter@;
                    proof {
                        assert(sa@.take(k + 1) =~= sa@.take(k as int).push(sa@[k as int]));
                    }
                    if holds(&keep, sa[k]) && !holds(&inter, sa[k]) {
                        inter.push(sa[k]);
                        proof { lemma_no_repeat_push(i0, sa@[k as int]); }
                    }
                    proof {
                        assert forall|c: char| inter@.contains(c) <==> keep@.contains(c) && sa@.take(k + 1).contains(c) by {
                            lemma_has_push(sa@.take(k as int), sa@[k as int], c);
                            lemma_has_push(i0, sa@[k as int], c);
                        }
                    }
                    k = k + 1;
                }
                assert(sa@.take(sa@.len() as int) =~= sa@);
                let mut k: usize = 0;
                proof {
                    assert(sb@.take(0) =~= Seq::<char>::empty());
                }
                while k < sb.len()
                    invariant k <= sb@.len(), inter@.len() <= sa@.len() + k, no_repeat(inter@),
                        forall|c: char| inter@.contains(c) <==> keep@.contains(c) && (sa@.contains(c) || sb@.take(k as int).contains(c)),
                    decreases sb@.len() - k,
                {
                    let ghost i0 = inter@;
                    proof {
                        assert(sb@.take(k + 1) =~= sb@.take(k as int).push(sb@[k as int]));
                    }
                    if holds(&keep, sb[k]) && !holds(&inter, sb[k]) {
                        inter.push(sb[k]);
                        proof { lemma_no_repeat_push(i0, sb@[k as int]); }
                    }
                    proof {
                        assert forall|c: char| inter@.contains(c) <==> keep@.contains(c) && (sa@.contains(c) || sb@.take(k + 1).contains(c)) by {
                            lemma_has_push(sb@.take(k as int), sb@[k as int], c);
                            lemma_has_push(i0, sb@[k as int], c);
                        }
                    }
                    k = k + 1;
                }
                assert(sb@.take(sb@.len() as int) =~= sb@);
                inter
            };
            proof {
                if hw && items@.len() > 0 {
                    assert forall|c: char| target@.contains(c) ==> sa@.contains(c) || sb@.contains(c) by {}
                    assert forall|c: char| (sa@.contains(c) || sb@.contains(c)) && (out@.contains(c) || item_has(items@, c))
                        ==> target@.contains(c) by {}
                }
            }
            assert(items@.len() > 0 ==> target@.len() <= sa@.len() + sb@.len());
            assert((n0 - s0.len()) * (t + 2) + (t + 2) == (n0 - (s0.len() - 1)) * (t + 2)) by (nonlinear_arith);
            assert((n0 - (s0.len() - 1)) * (t + 2) <= n0 * (t + 2)) by (nonlinear_arith) requires s0.len() >= 2, s0.len() <= n0;
            assert(sa@.len() + sb@.len() + 2 <= t + 2) by { lemma_sub_lens_nonneg(items@); }
            let node = self.einsum_binary(&sa, &sb, a, b, &target)?;
            let ghost mid = items@;
            proof { lemma_sub_lens_push(mid, (target, node)); }
            items.push((target, node));
            proof {
                if exists|k: int| 2 <= k < s0.len() && self.dt(#[trigger] s0[k].1) == d0 {
                    let k = choose|k: int| 2 <= k < s0.len() && self.dt(#[trigger] s0[k].1) == d0;
                    assert(items@[k - 2] == s0[k]);
                } else {
                    assert(items@[items@.len() - 1].1 == node);
                }
                if hw {
                    lemma_items_extend(gb, *self, s0, d0);
                    assert(items@ =~= folded(s0, (target, node)));
                    lemma_fold(*self, s0, (target, node), out@, d0);
                    lemma_drawn_items_pair(self.sh(node), target@, gb.sh(a), sa@, gb.sh(b), sb@, g0, items0);
                    assert forall|k: int| 0 <= k < items@.len() implies
                        drawn_items(self.sh((#[trigger] items@[k]).1), items@[k].0@, g0, items0) by {
                        if k < mid.len() {
                            assert(items@[k] == s0[k + 2]);
                        }
                    }
                }
            }
        }
        assert((n0 - items@.len()) * (t + 2) <= n0 * (t + 2)) by (nonlinear_arith) requires items@.len() >= 1, items@.len() <= n0;
        proof {
            if hw {
                lemma_agree_one(*self, items@);
                assert forall|k: int| 0 <= k < out@.len() implies item_has(items@, #[trigger] out@[k]) by {
                    assert(items@[0].0@.contains(out@[k]));
                }
            }
        }
        Ok(items[0].1)
    }

    /// Einstein summation, e.g. `einsum("ij,jk->ik", [a, b])`: any operand count, implicit or
    /// explicit output, repeated labels (diagonal, trace) and `...` batch dims.
    #[verifier::loop_isolation(false)]
    #[verifier::spinoff_prover]
    #[verifier::rlimit(100)]
    pub fn einsum(&mut self, equation: &str, operands: &[NodeId]) -> (r: Result<NodeId, Error>)
        requires
            old(self).wf(), old(self).all_valid(operands@),
            einsum_parse_ok(equation@, op_ranks(*old(self), operands@), operands@.len()) ==> ({
                let gs = groups_of(einsum_eq(equation@, op_ranks(*old(self), operands@)));
                &&& old(self).room(einsum_room(operands@.len(), gs.flatten_alt().len()))
                &&& covers(gs, out_of(einsum_eq(equation@, op_ranks(*old(self), operands@))))
                &&& forall|i: int| 0 <= i < gs.len() && !no_repeat(#[trigger] gs[i]) ==> old(self).sh(operands@[i]).len() >= gs[i].len()
            }),
        ensures
            final(self).wf(),
            !einsum_parse_ok(equation@, op_ranks(*old(self), operands@), operands@.len())
                ==> r is Err && *final(self) == *old(self),
            einsum_parse_ok(equation@, op_ranks(*old(self), operands@), operands@.len())
                ==> final(self).grew(*old(self), einsum_room(operands@.len(),
                    groups_of(einsum_eq(equation@, op_ranks(*old(self), operands@))).flatten_alt().len())),
            r matches Ok(id) ==> final(self).valid(id) && final(self).dt(id) == old(self).dt(operands@[0])
                && final(self).sh(id).len() == out_of(einsum_eq(equation@, op_ranks(*old(self), operands@))).len(),
            ({
                let eqn = einsum_eq(equation@, op_ranks(*old(self), operands@));
                let gs = groups_of(eqn);
                let out = out_of(eqn);
                einsum_parse_ok(equation@, op_ranks(*old(self), operands@), operands@.len())
                    && (forall|i: int| 0 <= i < operands@.len() ==> old(self).sh(#[trigger] operands@[i]).len() == gs[i].len())
                ==> {
                    &&& r is Ok <==> operands_agree(*old(self), operands@, gs) && diag_fits(*old(self), operands@, gs)
                        && no_repeat(out)
                        && (if operands@.len() == 1 {
                            old(self).dt(operands@[0]).spec_is_arith()
                                || forall|k: int| 0 <= k < gs[0].len() ==> out.contains(#[trigger] gs[0][k])
                        } else {
                            ops_same_dt(*old(self), operands@) && old(self).dt(operands@[0]).spec_is_arith()
                        })
                    &&& r matches Ok(id) ==> drawn_ops(final(self).sh(id), out, *old(self), operands@, gs)
                }
            }),
            operands@.len() >= 2 ==> (r matches Ok(id) ==> is_contraction(*final(self), id)),
            ({
                let eqn = einsum_eq(equation@, op_ranks(*old(self), operands@));
                let gs = groups_of(eqn);
                operands@.len() == 2 && einsum_parse_ok(equation@, op_ranks(*old(self), operands@), operands@.len())
                    && no_repeat(gs[0]) && no_repeat(gs[1])
                ==> (r matches Ok(id) ==> contraction_of(*final(self), id, operands@[0], operands@[1], gs[0], gs[1], out_of(eqn)))
            }),
    {
        let ghost g0 = *self;
        let ghost ranks0 = op_ranks(*self, operands@);
        let e = str_chars(equation);
        let mut ranks: Vec<usize> = Vec::new();
        let mut i: usize = 0;
        while i < operands.len()
            invariant i <= operands@.len(), ranks@ == op_ranks(g0, operands@.take(i as int)), *self == g0,
            decreases operands@.len() - i,
        {
            assert(self.valid(operands@[i as int]));
            ranks.push(self.rank(operands[i]));
            i = i + 1;
            assert(ranks@ =~= op_ranks(g0, operands@.take(i as int)));
        }
        assert(operands@.take(operands@.len() as int) =~= operands@);
        let e2 = if find_dots(&e) {
            match expand_ellipsis(&e, &ranks) {
                Some(v) => v,
                None => {
                    return Err(Error::new("einsum", ErrorKind::Invalid));
                },
            }
        } else {
            e
        };
        let ghost eq = einsum_eq(equation@, ranks0);
        assert(e2@ == eq);
        let (in_subs, out) = parse_equation(&e2);
        if in_subs.len() != operands.len() || operands.len() == 0 {
            return Err(Error::new("einsum", ErrorKind::Invalid));
        }
        let ghost gs = groups_of(eq);
        let ghost t = gs.flatten_alt().len();
        let mut all: Vec<char> = Vec::new();
        let mut i: usize = 0;
        while i < in_subs.len()
            invariant i <= in_subs@.len(), in_subs@.len() == gs.len(),
                forall|k: int| 0 <= k < in_subs@.len() ==> (#[trigger] in_subs@[k])@ == gs[k],
                all@ == gs.take(i as int).flatten_alt(),
            decreases in_subs@.len() - i,
        {
            assert(gs.take(i + 1).drop_last() =~= gs.take(i as int));
            append_chars(&mut all, &in_subs[i]);
            i = i + 1;
        }
        assert(gs.take(gs.len() as int) =~= gs);
        let out_subs = match out {
            Some(o) => o,
            None => once_ascending(&all),
        };
        assert(out_subs@ == out_of(eq));
        let ghost ops = operands@;
        let ghost rk = forall|k: int| 0 <= k < ops.len() ==> g0.sh(#[trigger] ops[k]).len() == gs[k].len();
        let mut items: Vec<(Vec<char>, NodeId)> = Vec::new();
        let mut i: usize = 0;
        proof {
            assert(items@ =~= Seq::<(Vec<char>, NodeId)>::empty());
        }
        while i < operands.len()
            invariant
                i <= operands@.len(), in_subs@.len() == operands@.len(), in_subs@.len() == gs.len(),
                forall|k: int| 0 <= k < in_subs@.len() ==> (#[trigger] in_subs@[k])@ == gs[k],
                items@.len() == i, self.wf(), self.grew(g0, 5 * gs.take(i as int).flatten_alt().len()),
                sub_lens(items@) <= gs.take(i as int).flatten_alt().len(),
                forall|k: int| 0 <= k < i ==> self.valid(#[trigger] items@[k].1) && self.dt(items@[k].1) == g0.dt(operands@[k]),
                rk ==> diagonals_of(*self, items@, g0, ops.take(i as int), gs.take(i as int)),
                rk ==> items_wf(*self, items@),
                rk ==> forall|k: int| 0 <= k < i && !no_repeat(#[trigger] gs[k]) ==> 1 <= numel(g0.sh(ops[k])) <= usize::MAX,
                forall|k: int| 0 <= k < i && no_repeat(#[trigger] gs[k]) ==> items@[k].1 == ops[k] && items@[k].0@ == gs[k],
            decreases operands@.len() - i,
        {
            assert(gs.take(i + 1).drop_last() =~= gs.take(i as int));
            assert(gs.take(i + 1).flatten_alt().len() == gs.take(i as int).flatten_alt().len() + gs[i as int].len());
            proof { crate::graph::ops::base::einsum::lemma_take_flat_le(gs, i as int + 1); }
            assert(self.valid(operands@[i as int]));
            let ghost gp = *self;
            proof {
                assert(self.nodes@[ops[i as int].0 as int] == g0.nodes@[ops[i as int].0 as int]);
                if rk && operands_agree(g0, ops, gs) {
                    lemma_ops_agree_within(g0, ops, gs, i as int);
                }
            }
            let sub = crate::graph::op::copy_vec(&in_subs[i]);
            let (n, sl) = self.einsum_diag(operands[i], sub)?;
            let ghost before = items@;
            proof { lemma_sub_lens_push(before, (sl, n)); }
            items.push((sl, n));
            proof {
                assert forall|k: int| 0 <= k < i + 1 && no_repeat(#[trigger] gs[k]) implies items@[k].1 == ops[k] && items@[k].0@ == gs[k] by {
                    if k < i {
                        assert(items@[k] == before[k]);
                    }
                }
            }
            proof {
                if rk {
                    if no_repeat(gs[i as int]) {
                        lemma_no_repeat_agree(g0.sh(ops[i as int]), gs[i as int]);
                    }
                    let ot = ops.take(i + 1);
                    let gt = gs.take(i + 1);
                    assert forall|k: int| 0 <= k < items@.len() implies {
                        &&& drawn_from(self.sh((#[trigger] items@[k]).1), items@[k].0@, g0.sh(ot[k]), gt[k])
                        &&& same_labels(items@[k].0@, gt[k])
                        &&& no_repeat(items@[k].0@)
                        &&& label_sizes_agree(g0.sh(ot[k]), gt[k])
                        &&& self.sh(items@[k].1).len() == items@[k].0@.len()
                    } by {
                        assert(ot[k] == ops[k] && gt[k] == gs[k]);
                        if k < i {
                            assert(items@[k] == before[k]);
                            assert(ops.take(i as int)[k] == ops[k] && gs.take(i as int)[k] == gs[k]);
                            assert(self.nodes@[before[k].1.0 as int] == gp.nodes@[before[k].1.0 as int]);
                        } else {
                            assert(items@[k] == (sl, n));
                        }
                    }
                    assert(diagonals_of(*self, items@, g0, ot, gt));
                    assert(items_wf(*self, items@));
                }
            }
            i = i + 1;
        }
        assert(gs.take(gs.len() as int) =~= gs);
        assert(ops.take(ops.len() as int) =~= ops);
        proof {
            if rk {
                assert(diagonals_of(*self, items@, g0, ops, gs));
                assert(diag_fits(g0, ops, gs));
            }
        }
        assert(items@[0].1 == items@[0].1 && self.dt(items@[0].1) == g0.dt(operands@[0]));
        if items.len() == 1 {
            proof {
                assert(sub_lens(items@) == items@[0].0@.len() + sub_lens(items@.drop_first()));
                assert(items@.drop_first().len() == 0);
            }
            let ghost it = items@;
            let (s0, n0) = items.pop().unwrap();
            let ghost gm = *self;
            proof {
                assert((s0, n0) == it[0]);
                if rk {
                    assert(gm.sh(n0).len() == s0@.len() && no_repeat(s0@));
                }
                if rk && einsum_parse_ok(equation@, ranks0, operands@.len()) {
                    let c0 = gs[0];
                    assert forall|k: int| 0 <= k < out_subs@.len() implies s0@.contains(#[trigger] out_subs@[k]) by {
                        assert(in_some(gs, out_subs@[k]));
                        let gi = choose|gi: int| 0 <= gi < gs.len() && (#[trigger] gs[gi]).contains(out_subs@[k]);
                        assert(gi == 0);
                    }
                    lemma_arranges_iff(out_subs@, s0@);
                    assert((forall|k: int| 0 <= k < s0@.len() ==> #[trigger] out_subs@.contains(s0@[k]))
                        <==> (forall|k: int| 0 <= k < c0.len() ==> out_subs@.contains(#[trigger] c0[k]))) by {
                        if forall|k: int| 0 <= k < s0@.len() ==> #[trigger] out_subs@.contains(s0@[k]) {
                            assert forall|k: int| 0 <= k < c0.len() implies out_subs@.contains(#[trigger] c0[k]) by {
                                assert(c0.contains(c0[k]));
                                let j = choose|j: int| 0 <= j < s0@.len() && s0@[j] == c0[k];
                            }
                        }
                        if forall|k: int| 0 <= k < c0.len() ==> out_subs@.contains(#[trigger] c0[k]) {
                            assert forall|k: int| 0 <= k < s0@.len() implies #[trigger] out_subs@.contains(s0@[k]) by {
                                assert(s0@.contains(s0@[k]));
                                let j = choose|j: int| 0 <= j < c0.len() && c0[j] == s0@[k];
                            }
                        }
                    }
                    assert(operands_agree(g0, ops, gs)) by {
                        assert forall|a: int, b: int, x: int, y: int|
                            0 <= a < ops.len() && 0 <= b < ops.len() && 0 <= x < gs[a].len() && 0 <= y < gs[b].len()
                            && #[trigger] gs[a][x] == #[trigger] gs[b][y]
                            implies g0.sh(ops[a])[x] == g0.sh(ops[b])[y] by {
                            assert(a == 0 && b == 0);
                        }
                    }
                }
            }
            let res = self.einsum_unary(&s0, &out_subs, n0);
            proof {
                if rk && einsum_parse_ok(equation@, ranks0, operands@.len()) {
                    if let Ok(id) = res {
                        assert(gm.sh(n0).len() == s0@.len() && no_repeat(s0@));
                        let ks = keep_by(s0@, s0@, in_out(out_subs@));
                        let kept = keep_by(gm.sh(n0), s0@, in_out(out_subs@));
                        assert(forall|k: int| 0 <= k < out_subs@.len() ==>
                            exists|j: int| 0 <= j < ks.len() && ks[j] == out_subs@[k] && #[trigger] self.sh(id)[k] == kept[j]);
                        lemma_unary_drawn(self.sh(id), out_subs@, gm.sh(n0), s0@, g0, ops, gs);
                    }
                }
            }
            return res;
        }
        proof {
            assert(operands@.len() * (t + 2) + 5 * t <= einsum_room(operands@.len(), t)) by (nonlinear_arith);
        }
        let ghost it = items@;
        let ghost gm = *self;
        let ghost d0 = g0.dt(operands@[0]);
        proof {
            if rk && einsum_parse_ok(equation@, ranks0, operands@.len()) {
                lemma_diagonals_agree(gm, it, g0, ops, gs);
                assert(items_dt(gm, it, d0) <==> ops_same_dt(g0, ops)) by {
                    if items_dt(gm, it, d0) {
                        assert forall|a: int| 0 <= a < ops.len() implies g0.dt(#[trigger] ops[a]) == g0.dt(ops[0]) by {
                            assert(gm.dt(it[a].1) == d0);
                        }
                    }
                    if ops_same_dt(g0, ops) {
                        assert forall|k: int| 0 <= k < it.len() implies gm.dt((#[trigger] it[k]).1) == d0 by {
                            assert(g0.dt(ops[k]) == g0.dt(ops[0]));
                        }
                    }
                }
                assert forall|k: int| 0 <= k < out_subs@.len() implies item_has(it, #[trigger] out_subs@[k]) by {
                    assert(in_some(gs, out_subs@[k]));
                    let gi = choose|gi: int| 0 <= gi < gs.len() && (#[trigger] gs[gi]).contains(out_subs@[k]);
                    assert(same_labels(it[gi].0@, gs[gi]));
                    assert(it[gi].0@.contains(out_subs@[k]));
                }
            }
        }
        let res = self.einsum_multi(items, &out_subs, Ghost(t), Ghost(d0));
        proof {
            if rk && einsum_parse_ok(equation@, ranks0, operands@.len()) {
                if let Ok(id) = res {
                    lemma_diagonals_drawn(self.sh(id), out_subs@, gm, it, g0, ops, gs);
                }
            }
        }
        res
    }
}

} // verus!
