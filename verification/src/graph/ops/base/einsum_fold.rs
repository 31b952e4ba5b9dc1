//! Operand lists of a many-operand einsum: what one pairwise fold keeps of the sizes, labels
//! and dtypes of the list it works on.

use vstd::prelude::*;
use crate::dtype::DType;
use crate::graph::{Graph, NodeId};
use crate::graph::shape::numel;
use crate::graph::ops::base::einsum::{no_repeat, drawn_from, drawn_at, same_labels, label_sizes_agree, keep_by, in_out, arranges,
    lemma_keep_by_no_repeat, lemma_keep_by_len};
use crate::graph::ops::base::einsum_pair::{lemma_keep_by_drawn, lemma_kept_has};
use crate::graph::ops::base::einsum_pair::cross_agree;

verus! {

/// Some operand of `items` has label `c`.
pub open spec fn item_has(items: Seq<(Vec<char>, NodeId)>, c: char) -> bool {
    exists|k: int| 0 <= k < items.len() && (#[trigger] items[k]).0@.contains(c)
}

/// Each operand's labels match its rank in `g` and repeat none.
pub open spec fn items_wf(g: Graph, items: Seq<(Vec<char>, NodeId)>) -> bool {
    forall|k: int| 0 <= k < items.len() ==> g.sh((#[trigger] items[k]).1).len() == items[k].0@.len() && no_repeat(items[k].0@)
}

/// Every operand has dtype `d`.
pub open spec fn items_dt(g: Graph, items: Seq<(Vec<char>, NodeId)>, d: DType) -> bool {
    forall|k: int| 0 <= k < items.len() ==> g.dt((#[trigger] items[k]).1) == d
}

/// Any two axes of the operands that carry the same label have the same size.
pub open spec fn items_agree(g: Graph, items: Seq<(Vec<char>, NodeId)>) -> bool {
    forall|a: int, b: int, i: int, j: int|
        0 <= a < items.len() && 0 <= b < items.len() && 0 <= i < items[a].0@.len() && 0 <= j < items[b].0@.len()
        && #[trigger] items[a].0@[i] == #[trigger] items[b].0@[j]
        ==> g.sh(items[a].1)[i] == g.sh(items[b].1)[j]
}

/// Each axis of `(s, c)` has the label and size of an axis of one of the operands.
pub open spec fn drawn_items(s: Seq<usize>, c: Seq<char>, g: Graph, items: Seq<(Vec<char>, NodeId)>) -> bool {
    &&& s.len() == c.len()
    &&& forall|p: int| 0 <= p < c.len() ==> #[trigger] drawn_item_at(s, c, g, items, p)
}

/// Axis `p` of `(s, c)` has the label and size of an axis of one of the operands.
pub open spec fn drawn_item_at(s: Seq<usize>, c: Seq<char>, g: Graph, items: Seq<(Vec<char>, NodeId)>, p: int) -> bool {
    exists|k: int, q: int| 0 <= k < items.len() && 0 <= q < items[k].0@.len()
        && c[p] == #[trigger] items[k].0@[q] && s[p] == g.sh(items[k].1)[q]
}

/// The operands of `items` are nodes of `g`.
pub open spec fn items_valid(g: Graph, items: Seq<(Vec<char>, NodeId)>) -> bool {
    forall|k: int| 0 <= k < items.len() ==> g.valid(#[trigger] items[k].1)
}

/// A graph that extends `g0` sees the same operands.
pub proof fn lemma_items_extend(g0: Graph, g1: Graph, items: Seq<(Vec<char>, NodeId)>, d: DType)
    requires g1.extends(g0), items_valid(g0, items),
    ensures
        items_valid(g1, items),
        items_wf(g1, items) == items_wf(g0, items),
        items_dt(g1, items, d) == items_dt(g0, items, d),
        items_agree(g1, items) == items_agree(g0, items),
        forall|k: int| 0 <= k < items.len() ==> g1.sh(#[trigger] items[k].1) == g0.sh(items[k].1) && g1.dt(items[k].1) == g0.dt(items[k].1),
{
    assert forall|k: int| 0 <= k < items.len() implies g1.sh(#[trigger] items[k].1) == g0.sh(items[k].1) && g1.dt(items[k].1) == g0.dt(items[k].1) by {
        assert(g1.nodes@[items[k].1.0 as int] == g0.nodes@[items[k].1.0 as int]);
    }
}

/// The list after one fold: the operands past the first two, then the fold's result.
pub open spec fn folded(items: Seq<(Vec<char>, NodeId)>, n: (Vec<char>, NodeId)) -> Seq<(Vec<char>, NodeId)> {
    items.skip(2).push(n)
}

/// What a fold of the first two operands into `n` (labels `t`) keeps: the sizes agree across
/// the list before exactly when the first two agree and the list after agrees, the dtypes
/// and the labels that `out` can draw on are kept.
pub proof fn lemma_fold(g: Graph, items: Seq<(Vec<char>, NodeId)>, n: (Vec<char>, NodeId), out: Seq<char>, d: DType)
    requires
        items.len() >= 2, items_wf(g, items),
        g.sh(n.1).len() == n.0@.len(), no_repeat(n.0@),
        forall|c: char| #[trigger] n.0@.contains(c) ==> items[0].0@.contains(c) || items[1].0@.contains(c),
        forall|c: char| (items[0].0@.contains(c) || items[1].0@.contains(c)) && (out.contains(c) || item_has(items.skip(2), c))
            ==> #[trigger] n.0@.contains(c),
        drawn_from(g.sh(n.1), n.0@, g.sh(items[0].1) + g.sh(items[1].1), items[0].0@ + items[1].0@),
        g.dt(n.1) == g.dt(items[0].1),
    ensures
        items_wf(g, folded(items, n)),
        cross_agree(g.sh(items[0].1), items[0].0@, g.sh(items[1].1), items[1].0@) ==>
            (items_agree(g, items) <==> items_agree(g, folded(items, n))),
        items_agree(g, items) ==> cross_agree(g.sh(items[0].1), items[0].0@, g.sh(items[1].1), items[1].0@),
        g.dt(items[0].1) == g.dt(items[1].1) ==> (items_dt(g, items, d) <==> items_dt(g, folded(items, n), d)),
        (forall|k: int| 0 <= k < out.len() ==> item_has(items, #[trigger] out[k]))
            <==> (forall|k: int| 0 <= k < out.len() ==> item_has(folded(items, n), #[trigger] out[k])),
{
    let l = folded(items, n);
    let rest = items.skip(2);
    let (la, lb) = (items[0].0@, items[1].0@);
    let (sa, sb) = (g.sh(items[0].1), g.sh(items[1].1));
    let (ln, sn) = (n.0@, g.sh(n.1));
    assert forall|k: int| 0 <= k < rest.len() implies #[trigger] l[k] == items[k + 2] && rest[k] == items[k + 2] by {}
    assert(l[rest.len() as int] == n);
    assert forall|c: char| (la.contains(c) || lb.contains(c)) && item_has(rest, c) implies #[trigger] ln.contains(c) by {
        assert((items[0].0@.contains(c) || items[1].0@.contains(c)) && (out.contains(c) || item_has(items.skip(2), c)));
    }
    // items_wf
    assert forall|k: int| 0 <= k < l.len() implies g.sh((#[trigger] l[k]).1).len() == l[k].0@.len() && no_repeat(l[k].0@) by {
        if k < rest.len() {
            assert(l[k] == items[k + 2]);
        }
    }
    // The size at each label of the fold's result is that of the first two operands.
    assert forall|p: int, i: int| 0 <= p < ln.len() && 0 <= i < la.len() && #[trigger] ln[p] == #[trigger] la[i]
        && cross_agree(sa, la, sb, lb) implies sn[p] == sa[i] by {
        assert(drawn_at(sn, ln, sa + sb, la + lb, p));
        let q = choose|q: int| 0 <= q < (la + lb).len() && ln[p] == #[trigger] (la + lb)[q] && sn[p] == (sa + sb)[q];
        if q < la.len() {
            assert((la + lb)[q] == la[q]);
        } else {
            assert((la + lb)[q] == lb[q - la.len()] && (sa + sb)[q] == sb[q - la.len()]);
        }
    }
    assert forall|p: int, j: int| 0 <= p < ln.len() && 0 <= j < lb.len() && #[trigger] ln[p] == #[trigger] lb[j]
        && cross_agree(sa, la, sb, lb) implies sn[p] == sb[j] by {
        assert(drawn_at(sn, ln, sa + sb, la + lb, p));
        let q = choose|q: int| 0 <= q < (la + lb).len() && ln[p] == #[trigger] (la + lb)[q] && sn[p] == (sa + sb)[q];
        if q < la.len() {
            assert((la + lb)[q] == la[q]);
        } else {
            assert((la + lb)[q] == lb[q - la.len()] && (sa + sb)[q] == sb[q - la.len()]);
        }
    }
    if items_agree(g, items) {
        assert forall|i: int, j: int| 0 <= i < la.len() && 0 <= j < lb.len() && #[trigger] la[i] == #[trigger] lb[j] implies sa[i] == sb[j] by {
            assert(items[0].0@[i] == items[1].0@[j]);
        }
    }
    if cross_agree(sa, la, sb, lb) {
        if items_agree(g, items) {
            assert forall|a: int, b: int, i: int, j: int|
                0 <= a < l.len() && 0 <= b < l.len() && 0 <= i < l[a].0@.len() && 0 <= j < l[b].0@.len()
                && #[trigger] l[a].0@[i] == #[trigger] l[b].0@[j]
                implies g.sh(l[a].1)[i] == g.sh(l[b].1)[j] by {
                let c = l[a].0@[i];
                let e = rest.len() as int;
                if a < e && b < e {
                    assert(l[a] == items[a + 2] && l[b] == items[b + 2]);
                } else if a < e {
                    assert(l[a] == items[a + 2] && l[b] == n);
                    assert(ln[j] == c && ln.contains(c));
                    if la.contains(c) {
                        let i2 = choose|i2: int| 0 <= i2 < la.len() && la[i2] == c;
                        assert(sn[j] == sa[i2]);
                        assert(items[a + 2].0@[i] == items[0].0@[i2]);
                    } else {
                        let j2 = choose|j2: int| 0 <= j2 < lb.len() && lb[j2] == c;
                        assert(sn[j] == sb[j2]);
                        assert(items[a + 2].0@[i] == items[1].0@[j2]);
                    }
                } else if b < e {
                    assert(l[b] == items[b + 2] && l[a] == n);
                    assert(ln[i] == c && ln.contains(c));
                    if la.contains(c) {
                        let i2 = choose|i2: int| 0 <= i2 < la.len() && la[i2] == c;
                        assert(sn[i] == sa[i2]);
                        assert(items[b + 2].0@[j] == items[0].0@[i2]);
                    } else {
                        let j2 = choose|j2: int| 0 <= j2 < lb.len() && lb[j2] == c;
                        assert(sn[i] == sb[j2]);
                        assert(items[b + 2].0@[j] == items[1].0@[j2]);
                    }
                } else {
                    assert(l[a] == n && l[b] == n);
                }
            }
        }
        if items_agree(g, l) {
            assert forall|a: int, b: int, i: int, j: int|
                0 <= a < items.len() && 0 <= b < items.len() && 0 <= i < items[a].0@.len() && 0 <= j < items[b].0@.len()
                && #[trigger] items[a].0@[i] == #[trigger] items[b].0@[j]
                implies g.sh(items[a].1)[i] == g.sh(items[b].1)[j] by {
                let c = items[a].0@[i];
                let e = rest.len() as int;
                assert(l[e] == n);
                if a >= 2 && b >= 2 {
                    assert(l[a - 2] == items[a] && l[b - 2] == items[b]);
                } else if a < 2 && b < 2 {
                    if a != b {
                        if a == 0 {
                            assert(la[i] == lb[j]);
                        } else {
                            assert(lb[i] == la[j]);
                        }
                    }
                } else if a < 2 {
                    assert(rest[b - 2] == items[b] && l[b - 2] == items[b]);
                    assert(items[b].0@[j] == c && rest[b - 2].0@.contains(c));
                    assert(item_has(rest, c));
                    assert(items[a].0@[i] == c && items[a].0@.contains(c));
                    if a == 0 {
                        assert(la.contains(c));
                    } else {
                        assert(lb.contains(c));
                    }
                    assert(ln.contains(c));
                    let p = choose|p: int| 0 <= p < ln.len() && ln[p] == c;
                    if a == 0 {
                        assert(sn[p] == sa[i]);
                    } else {
                        assert(sn[p] == sb[i]);
                    }
                    assert(l[e].0@[p] == l[b - 2].0@[j]);
                } else {
                    assert(rest[a - 2] == items[a] && l[a - 2] == items[a]);
                    assert(items[a].0@[i] == c && rest[a - 2].0@.contains(c));
                    assert(item_has(rest, c));
                    assert(items[b].0@[j] == c && items[b].0@.contains(c));
                    if b == 0 {
                        assert(la.contains(c));
                    } else {
                        assert(lb.contains(c));
                    }
                    assert(ln.contains(c));
                    let p = choose|p: int| 0 <= p < ln.len() && ln[p] == c;
                    if b == 0 {
                        assert(sn[p] == sa[j]);
                    } else {
                        assert(sn[p] == sb[j]);
                    }
                    assert(l[e].0@[p] == l[a - 2].0@[i]);
                }
            }
        }
    }
    if g.dt(items[0].1) == g.dt(items[1].1) {
        if items_dt(g, items, d) {
            assert forall|k: int| 0 <= k < l.len() implies g.dt((#[trigger] l[k]).1) == d by {
                if k < rest.len() {
                    assert(l[k] == items[k + 2]);
                }
            }
        }
        if items_dt(g, l, d) {
            assert forall|k: int| 0 <= k < items.len() implies g.dt((#[trigger] items[k]).1) == d by {
                if k >= 2 {
                    assert(l[k - 2] == items[k]);
                }
            }
        }
    }
    assert forall|c: char| out.contains(c) implies (item_has(items, c) <==> item_has(l, c)) by {
        if item_has(items, c) {
            let k = choose|k: int| 0 <= k < items.len() && (#[trigger] items[k]).0@.contains(c);
            if k >= 2 {
                assert(l[k - 2] == items[k]);
            } else {
                assert(ln.contains(c));
                assert(l[rest.len() as int] == n);
            }
        }
        if item_has(l, c) {
            let k = choose|k: int| 0 <= k < l.len() && (#[trigger] l[k]).0@.contains(c);
            if k < rest.len() {
                assert(l[k] == items[k + 2]);
            } else {
                assert(l[k] == n);
                assert(la.contains(c) || lb.contains(c));
                if la.contains(c) {
                    assert(items[0].0@.contains(c));
                } else {
                    assert(items[1].0@.contains(c));
                }
            }
        }
    }
    assert((forall|k: int| 0 <= k < out.len() ==> item_has(items, #[trigger] out[k]))
        <==> (forall|k: int| 0 <= k < out.len() ==> item_has(l, #[trigger] out[k]))) by {
        assert forall|k: int| 0 <= k < out.len() implies out.contains(#[trigger] out[k]) by {}
    }
}

/// Agreement across the list gives agreement between its first two operands.
pub proof fn lemma_agree_first_two(g: Graph, items: Seq<(Vec<char>, NodeId)>)
    requires items.len() >= 2, items_agree(g, items),
    ensures cross_agree(g.sh(items[0].1), items[0].0@, g.sh(items[1].1), items[1].0@),
{
    let (la, lb) = (items[0].0@, items[1].0@);
    assert forall|i: int, j: int| 0 <= i < la.len() && 0 <= j < lb.len() && #[trigger] la[i] == #[trigger] lb[j]
        implies g.sh(items[0].1)[i] == g.sh(items[1].1)[j] by {
        assert(items[0].0@[i] == items[1].0@[j]);
    }
}

/// A single operand whose labels repeat none agrees with itself.
pub proof fn lemma_agree_one(g: Graph, items: Seq<(Vec<char>, NodeId)>)
    requires items.len() == 1, items_wf(g, items),
    ensures items_agree(g, items),
{
    assert(no_repeat(items[0].0@));
}

/// Each operand's axes are drawn from the operands.
pub proof fn lemma_drawn_items_self(g: Graph, items: Seq<(Vec<char>, NodeId)>, k: int)
    requires items_wf(g, items), 0 <= k < items.len(),
    ensures drawn_items(g.sh(items[k].1), items[k].0@, g, items),
{
    let c = items[k].0@;
    let s = g.sh(items[k].1);
    assert forall|p: int| 0 <= p < c.len() implies #[trigger] drawn_item_at(s, c, g, items, p) by {
        assert(c[p] == items[k].0@[p] && s[p] == g.sh(items[k].1)[p]);
    }
}

/// What a fold draws from its two operands, it draws from the operands they were drawn from.
pub proof fn lemma_drawn_items_pair(sn: Seq<usize>, ln: Seq<char>, sa: Seq<usize>, la: Seq<char>, sb: Seq<usize>, lb: Seq<char>,
    g: Graph, items: Seq<(Vec<char>, NodeId)>)
    requires drawn_from(sn, ln, sa + sb, la + lb), drawn_items(sa, la, g, items), drawn_items(sb, lb, g, items),
    ensures drawn_items(sn, ln, g, items),
{
    assert forall|p: int| 0 <= p < ln.len() implies #[trigger] drawn_item_at(sn, ln, g, items, p) by {
        assert(drawn_at(sn, ln, sa + sb, la + lb, p));
        let q = choose|q: int| 0 <= q < (la + lb).len() && ln[p] == #[trigger] (la + lb)[q] && sn[p] == (sa + sb)[q];
        if q < la.len() {
            assert((la + lb)[q] == la[q] && (sa + sb)[q] == sa[q]);
            assert(drawn_item_at(sa, la, g, items, q));
            let (k, q2) = choose|k: int, q2: int| 0 <= k < items.len() && 0 <= q2 < items[k].0@.len()
                && la[q] == #[trigger] items[k].0@[q2] && sa[q] == g.sh(items[k].1)[q2];
            assert(ln[p] == items[k].0@[q2] && sn[p] == g.sh(items[k].1)[q2]);
        } else {
            let q1 = q - la.len();
            assert((la + lb)[q] == lb[q1] && (sa + sb)[q] == sb[q1]);
            assert(drawn_item_at(sb, lb, g, items, q1));
            let (k, q2) = choose|k: int, q2: int| 0 <= k < items.len() && 0 <= q2 < items[k].0@.len()
                && lb[q1] == #[trigger] items[k].0@[q2] && sb[q1] == g.sh(items[k].1)[q2];
            assert(ln[p] == items[k].0@[q2] && sn[p] == g.sh(items[k].1)[q2]);
        }
    }
}

/// A label of a joined sequence comes from one of its parts.
pub proof fn lemma_has_concat(a: Seq<char>, b: Seq<char>, c: char)
    ensures (a + b).contains(c) <==> a.contains(c) || b.contains(c),
{
    if (a + b).contains(c) {
        let i = choose|i: int| 0 <= i < (a + b).len() && (a + b)[i] == c;
        if i < a.len() {
            assert(a[i] == c);
        } else {
            assert(b[i - a.len()] == c);
        }
    }
    if a.contains(c) {
        let i = choose|i: int| 0 <= i < a.len() && a[i] == c;
        assert((a + b)[i] == c);
    }
    if b.contains(c) {
        let i = choose|i: int| 0 <= i < b.len() && b[i] == c;
        assert((a + b)[i + a.len()] == c);
    }
}

/// A label of a sequence extended by `x` is `x` or one it had.
pub proof fn lemma_has_push(a: Seq<char>, x: char, c: char)
    ensures a.push(x).contains(c) <==> a.contains(c) || x == c,
{
    if a.push(x).contains(c) {
        let i = choose|i: int| 0 <= i < a.push(x).len() && a.push(x)[i] == c;
        if i < a.len() {
            assert(a[i] == c);
        }
    }
    if a.contains(c) {
        let i = choose|i: int| 0 <= i < a.len() && a[i] == c;
        assert(a.push(x)[i] == c);
    }
    if x == c {
        assert(a.push(x)[a.len() as int] == c);
    }
}

/// Extending by a new label keeps a sequence free of repeats.
pub proof fn lemma_no_repeat_push(a: Seq<char>, x: char)
    requires no_repeat(a), !a.contains(x),
    ensures no_repeat(a.push(x)),
{
    let b = a.push(x);
    assert forall|i: int, j: int| 0 <= i < b.len() && 0 <= j < b.len() && i != j implies b[i] != b[j] by {
        if i < a.len() && j < a.len() {
            assert(b[i] == a[i] && b[j] == a[j]);
        } else if i < a.len() {
            assert(b[i] == a[i]);
        } else if j < a.len() {
            assert(b[j] == a[j]);
        }
    }
}

/// Any two axes of the operands `ops` (labelled by `gs`), within one operand or across two,
/// that carry the same label have the same size.
pub open spec fn operands_agree(g: Graph, ops: Seq<NodeId>, gs: Seq<Seq<char>>) -> bool {
    forall|a: int, b: int, i: int, j: int|
        0 <= a < ops.len() && 0 <= b < ops.len() && 0 <= i < gs[a].len() && 0 <= j < gs[b].len()
        && #[trigger] gs[a][i] == #[trigger] gs[b][j]
        ==> g.sh(ops[a])[i] == g.sh(ops[b])[j]
}

/// Each operand with a repeated label has at least one and at most `usize::MAX` elements.
pub open spec fn diag_fits(g: Graph, ops: Seq<NodeId>, gs: Seq<Seq<char>>) -> bool {
    forall|a: int| 0 <= a < ops.len() && !no_repeat(#[trigger] gs[a]) ==> 1 <= numel(g.sh(ops[a])) <= usize::MAX
}

/// Every operand has the dtype of the first.
pub open spec fn ops_same_dt(g: Graph, ops: Seq<NodeId>) -> bool {
    forall|a: int| 0 <= a < ops.len() ==> g.dt(#[trigger] ops[a]) == g.dt(ops[0])
}

/// Each axis of `(s, c)` has the label and size of an axis of one of the operands `ops`.
pub open spec fn drawn_ops(s: Seq<usize>, c: Seq<char>, g: Graph, ops: Seq<NodeId>, gs: Seq<Seq<char>>) -> bool {
    &&& s.len() == c.len()
    &&& forall|p: int| 0 <= p < c.len() ==> #[trigger] drawn_op_at(s, c, g, ops, gs, p)
}

/// Axis `p` of `(s, c)` has the label and size of an axis of one of the operands `ops`.
pub open spec fn drawn_op_at(s: Seq<usize>, c: Seq<char>, g: Graph, ops: Seq<NodeId>, gs: Seq<Seq<char>>, p: int) -> bool {
    exists|a: int, q: int| 0 <= a < ops.len() && 0 <= q < gs[a].len() && c[p] == #[trigger] gs[a][q] && s[p] == g.sh(ops[a])[q]
}

/// What each operand became once its diagonals were taken: the list `items` of `g1`, each
/// drawn from its operand of `g0`, with the same labels, none repeated, and the operand's own
/// sizes agreeing with its labels.
pub open spec fn diagonals_of(g1: Graph, items: Seq<(Vec<char>, NodeId)>, g0: Graph, ops: Seq<NodeId>, gs: Seq<Seq<char>>) -> bool {
    &&& items.len() == ops.len()
    &&& gs.len() == ops.len()
    &&& forall|k: int| 0 <= k < items.len() ==> {
        &&& drawn_from(g1.sh((#[trigger] items[k]).1), items[k].0@, g0.sh(ops[k]), gs[k])
        &&& same_labels(items[k].0@, gs[k])
        &&& no_repeat(items[k].0@)
        &&& label_sizes_agree(g0.sh(ops[k]), gs[k])
    }
}

/// Agreement within every operand follows from agreement across them.
pub proof fn lemma_ops_agree_within(g: Graph, ops: Seq<NodeId>, gs: Seq<Seq<char>>, a: int)
    requires operands_agree(g, ops, gs), 0 <= a < ops.len(),
    ensures label_sizes_agree(g.sh(ops[a]), gs[a]),
{
    assert forall|i: int, j: int| 0 <= i < gs[a].len() && 0 <= j < gs[a].len() && gs[a][i] == gs[a][j]
        implies #[trigger] g.sh(ops[a])[i] == #[trigger] g.sh(ops[a])[j] by {
        assert(gs[a][i] == gs[a][j]);
    }
}

/// The diagonals agree across the list exactly when the operands agree.
pub proof fn lemma_diagonals_agree(g1: Graph, items: Seq<(Vec<char>, NodeId)>, g0: Graph, ops: Seq<NodeId>, gs: Seq<Seq<char>>)
    requires diagonals_of(g1, items, g0, ops, gs),
    ensures items_agree(g1, items) <==> operands_agree(g0, ops, gs),
{
    if operands_agree(g0, ops, gs) {
        assert forall|a: int, b: int, i: int, j: int|
            0 <= a < items.len() && 0 <= b < items.len() && 0 <= i < items[a].0@.len() && 0 <= j < items[b].0@.len()
            && #[trigger] items[a].0@[i] == #[trigger] items[b].0@[j]
            implies g1.sh(items[a].1)[i] == g1.sh(items[b].1)[j] by {
            let (ca, cb) = (items[a].0@, items[b].0@);
            let (sa, sb) = (g1.sh(items[a].1), g1.sh(items[b].1));
            assert(drawn_at(sa, ca, g0.sh(ops[a]), gs[a], i));
            let qa = choose|q: int| 0 <= q < gs[a].len() && ca[i] == #[trigger] gs[a][q] && sa[i] == g0.sh(ops[a])[q];
            assert(drawn_at(sb, cb, g0.sh(ops[b]), gs[b], j));
            let qb = choose|q: int| 0 <= q < gs[b].len() && cb[j] == #[trigger] gs[b][q] && sb[j] == g0.sh(ops[b])[q];
            assert(gs[a][qa] == gs[b][qb]);
        }
    }
    if items_agree(g1, items) {
        assert forall|a: int, b: int, i: int, j: int|
            0 <= a < ops.len() && 0 <= b < ops.len() && 0 <= i < gs[a].len() && 0 <= j < gs[b].len()
            && #[trigger] gs[a][i] == #[trigger] gs[b][j]
            implies g0.sh(ops[a])[i] == g0.sh(ops[b])[j] by {
            let c = gs[a][i];
            let (ca, cb) = (items[a].0@, items[b].0@);
            let (sa, sb) = (g1.sh(items[a].1), g1.sh(items[b].1));
            assert(gs[a].contains(c) && gs[b].contains(c));
            assert(ca.contains(c) && cb.contains(c));
            let pa = choose|p: int| 0 <= p < ca.len() && ca[p] == c;
            let pb = choose|p: int| 0 <= p < cb.len() && cb[p] == c;
            assert(drawn_at(sa, ca, g0.sh(ops[a]), gs[a], pa));
            let qa = choose|q: int| 0 <= q < gs[a].len() && ca[pa] == #[trigger] gs[a][q] && sa[pa] == g0.sh(ops[a])[q];
            assert(drawn_at(sb, cb, g0.sh(ops[b]), gs[b], pb));
            let qb = choose|q: int| 0 <= q < gs[b].len() && cb[pb] == #[trigger] gs[b][q] && sb[pb] == g0.sh(ops[b])[q];
            assert(g0.sh(ops[a])[qa] == g0.sh(ops[a])[i]);
            assert(g0.sh(ops[b])[qb] == g0.sh(ops[b])[j]);
            assert(items[a].0@[pa] == items[b].0@[pb]);
        }
    }
}

/// What is drawn from the diagonals is drawn from the operands.
pub proof fn lemma_diagonals_drawn(s: Seq<usize>, c: Seq<char>, g1: Graph, items: Seq<(Vec<char>, NodeId)>, g0: Graph,
    ops: Seq<NodeId>, gs: Seq<Seq<char>>)
    requires drawn_items(s, c, g1, items), diagonals_of(g1, items, g0, ops, gs),
    ensures drawn_ops(s, c, g0, ops, gs),
{
    assert forall|p: int| 0 <= p < c.len() implies #[trigger] drawn_op_at(s, c, g0, ops, gs, p) by {
        assert(drawn_item_at(s, c, g1, items, p));
        let (k, q) = choose|k: int, q: int| 0 <= k < items.len() && 0 <= q < items[k].0@.len()
            && c[p] == #[trigger] items[k].0@[q] && s[p] == g1.sh(items[k].1)[q];
        assert(drawn_at(g1.sh(items[k].1), items[k].0@, g0.sh(ops[k]), gs[k], q));
        let q2 = choose|q2: int| 0 <= q2 < gs[k].len() && items[k].0@[q] == #[trigger] gs[k][q2]
            && g1.sh(items[k].1)[q] == g0.sh(ops[k])[q2];
        assert(c[p] == gs[k][q2] && s[p] == g0.sh(ops[k])[q2]);
    }
}

/// Placing the labels of `subs` that `out` keeps in the order of `out` is possible exactly
/// when `out` repeats no label, given that `subs` repeats none and has every label of `out`.
pub proof fn lemma_arranges_iff(out: Seq<char>, subs: Seq<char>)
    requires no_repeat(subs), forall|k: int| 0 <= k < out.len() ==> subs.contains(#[trigger] out[k]),
    ensures arranges(out, keep_by(subs, subs, in_out(out))) <==> no_repeat(out),
{
    let ks = keep_by(subs, subs, in_out(out));
    lemma_keep_by_no_repeat(subs, in_out(out));
    if no_repeat(out) {
        assert forall|k: int| 0 <= k < out.len() implies ks.contains(#[trigger] out[k]) by {
            assert(out.contains(out[k]));
            lemma_kept_has(subs, in_out(out), out[k]);
        }
        assert(ks.to_set() =~= out.to_set()) by {
            assert forall|c: char| out.contains(c) implies ks.contains(c) by {
                let k = choose|k: int| 0 <= k < out.len() && out[k] == c;
            }
            assert forall|c: char| ks.contains(c) implies out.contains(c) by {
                lemma_kept_has(subs, in_out(out), c);
            }
        }
        assert(ks.no_duplicates());
        assert(out.no_duplicates());
        ks.unique_seq_to_set();
        out.unique_seq_to_set();
    }
}

/// The single-operand result, drawn through the kept axes of the diagonal, is drawn from the
/// operand.
pub proof fn lemma_unary_drawn(s: Seq<usize>, out: Seq<char>, sx: Seq<usize>, subs: Seq<char>, g0: Graph,
    ops: Seq<NodeId>, gs: Seq<Seq<char>>)
    requires
        ops.len() == 1, gs.len() == 1, s.len() == out.len(), sx.len() == subs.len(),
        drawn_from(sx, subs, g0.sh(ops[0]), gs[0]),
        forall|k: int| 0 <= k < out.len() ==> exists|j: int| 0 <= j < keep_by(subs, subs, in_out(out)).len()
            && keep_by(subs, subs, in_out(out))[j] == out[k] && #[trigger] s[k] == keep_by(sx, subs, in_out(out))[j],
    ensures drawn_ops(s, out, g0, ops, gs),
{
    let ks = keep_by(subs, subs, in_out(out));
    let kept = keep_by(sx, subs, in_out(out));
    lemma_keep_by_drawn(sx, subs, in_out(out));
    assert forall|p: int| 0 <= p < out.len() implies #[trigger] drawn_op_at(s, out, g0, ops, gs, p) by {
        assert(s[p] == s[p]);
        let j = choose|j: int| 0 <= j < ks.len() && ks[j] == out[p] && #[trigger] s[p] == kept[j];
        assert(drawn_at(kept, ks, sx, subs, j));
        let q = choose|q: int| 0 <= q < subs.len() && ks[j] == #[trigger] subs[q] && kept[j] == sx[q];
        assert(drawn_at(sx, subs, g0.sh(ops[0]), gs[0], q));
        let q2 = choose|q2: int| 0 <= q2 < gs[0].len() && subs[q] == #[trigger] gs[0][q2] && sx[q] == g0.sh(ops[0])[q2];
        assert(out[p] == gs[0][q2] && s[p] == g0.sh(ops[0])[q2]);
    }
}

} // verus!
