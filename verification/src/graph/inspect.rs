//! Pass inspector: the reachable cone of a set of roots in topological order, and its size
//! (the metric a rewrite pass shrinks).

use vstd::prelude::*;
use crate::graph::{Graph, NodeId};

verus! {

/// `p` is a chain of nodes, each one a source of the one before it.
pub open spec fn is_path(g: Graph, p: Seq<NodeId>) -> bool {
    &&& p.len() >= 1
    &&& forall|i: int| 0 <= i < p.len() ==> g.valid(#[trigger] p[i])
    &&& forall|i: int| 0 <= i < p.len() - 1 ==> g.srcs(#[trigger] p[i]).contains(p[i + 1])
}

/// Some chain of source edges leads from one of `roots` to `id`.
pub open spec fn reaches(g: Graph, roots: Seq<NodeId>, id: NodeId) -> bool {
    exists|p: Seq<NodeId>| #[trigger] is_path(g, p) && roots.contains(p[0]) && p.last() == id
}

/// The set of nodes reachable from `roots`.
pub open spec fn reach_set(g: Graph, roots: Seq<NodeId>) -> Set<NodeId> {
    Set::new(|id: NodeId| reaches(g, roots, id))
}

/// Ids strictly increase along `v`.
pub open spec fn ascending(v: Seq<NodeId>) -> bool {
    forall|i: int, j: int| 0 <= i < j < v.len() ==> (#[trigger] v[i]).0 < (#[trigger] v[j]).0
}

/// `marked` holds every root and is closed under sources.
spec fn closed(g: Graph, roots: Seq<NodeId>, marked: Seq<bool>) -> bool {
    &&& marked.len() == g.nodes@.len()
    &&& forall|k: int| 0 <= k < roots.len() ==> marked[(#[trigger] roots[k]).0 as int]
    &&& forall|j: int, k: int| 0 <= j < marked.len() && marked[j] && 0 <= k < g.nodes@[j].src@.len()
        ==> marked[(#[trigger] g.nodes@[j].src@[k]).0 as int]
}

proof fn lemma_closed_path(g: Graph, roots: Seq<NodeId>, marked: Seq<bool>, p: Seq<NodeId>)
    requires closed(g, roots, marked), is_path(g, p), roots.contains(p[0]),
    ensures marked[p.last().0 as int],
    decreases p.len(),
{
    if p.len() == 1 {
        let k = choose|k: int| 0 <= k < roots.len() && roots[k] == p[0];
        assert(marked[roots[k].0 as int]);
    } else {
        let q = p.drop_last();
        assert(is_path(g, q)) by {
            assert forall|i: int| 0 <= i < q.len() implies g.valid(#[trigger] q[i]) by { assert(q[i] == p[i]); }
            assert forall|i: int| 0 <= i < q.len() - 1 implies g.srcs(#[trigger] q[i]).contains(q[i + 1]) by {
                assert(q[i] == p[i] && q[i + 1] == p[i + 1]);
                assert(g.srcs(p[i]).contains(p[i + 1]));
            }
        }
        lemma_closed_path(g, roots, marked, q);
        let prev = p[p.len() - 2];
        assert(g.srcs(prev).contains(p[p.len() - 2 + 1]));
        let k = choose|k: int| 0 <= k < g.srcs(prev).len() && g.srcs(prev)[k] == p.last();
        assert(marked[(g.nodes@[prev.0 as int].src@[k]).0 as int]);
    }
}

/// Set `marked` at every id in `src`.
fn mark_all(marked: &mut Vec<bool>, src: &Vec<NodeId>)
    requires forall|u: int| 0 <= u < src@.len() ==> ((#[trigger] src@[u]).0 as int) < old(marked)@.len(),
    ensures
        final(marked)@.len() == old(marked)@.len(),
        forall|j: int| 0 <= j < old(marked)@.len() ==> #[trigger] final(marked)@[j]
            == (old(marked)@[j] || exists|u: int| 0 <= u < src@.len() && (#[trigger] src@[u]).0 == j),
{
    let mut t: usize = 0;
    while t < src.len()
        invariant
            t <= src@.len(),
            marked@.len() == old(marked)@.len(),
            forall|u: int| 0 <= u < src@.len() ==> ((#[trigger] src@[u]).0 as int) < old(marked)@.len(),
            forall|j: int| 0 <= j < old(marked)@.len() ==> #[trigger] marked@[j]
                == (old(marked)@[j] || exists|u: int| 0 <= u < t && (#[trigger] src@[u]).0 == j),
        decreases src@.len() - t,
    {
        let s = src[t];
        let ghost prev = marked@;
        marked.set(s.0 as usize, true);
        proof {
            assert forall|j: int| 0 <= j < old(marked)@.len() implies #[trigger] marked@[j]
                == (old(marked)@[j] || exists|u: int| 0 <= u < t + 1 && (#[trigger] src@[u]).0 == j) by {
                if j == s.0 {
                    assert(src@[t as int].0 == j);
                } else {
                    assert(marked@[j] == prev[j]);
                    if exists|u: int| 0 <= u < t + 1 && (#[trigger] src@[u]).0 == j {
                        let u = choose|u: int| 0 <= u < t + 1 && (#[trigger] src@[u]).0 == j;
                        assert(u < t);
                    }
                }
            }
        }
        t = t + 1;
    }
}

pub proof fn lemma_reach_src(g: Graph, roots: Seq<NodeId>, me: NodeId, s: NodeId)
    requires reaches(g, roots, me), g.srcs(me).contains(s), g.valid(s),
    ensures reaches(g, roots, s),
{
    let p = choose|p: Seq<NodeId>| #[trigger] is_path(g, p) && roots.contains(p[0]) && p.last() == me;
    let p2 = p.push(s);
    assert forall|a: int| 0 <= a < p2.len() implies g.valid(#[trigger] p2[a]) by {
        if a < p.len() { assert(p2[a] == p[a]); }
    }
    assert forall|a: int| 0 <= a < p2.len() - 1 implies g.srcs(#[trigger] p2[a]).contains(p2[a + 1]) by {
        if a < p.len() - 1 {
            assert(p2[a] == p[a] && p2[a + 1] == p[a + 1]);
            assert(g.srcs(p[a]).contains(p[a + 1]));
        } else {
            assert(p2[a] == p.last() && p2[a + 1] == s);
        }
    }
    assert(is_path(g, p2));
    assert(p2[0] == p[0]);
}

/// Every node reachable from `roots`, each exactly once, in ascending id order; since a
/// node's sources precede it, each node comes after all of its sources.
pub fn reachable_multi(g: &Graph, roots: &[NodeId]) -> (r: Vec<NodeId>)
    requires g.wf(), forall|k: int| 0 <= k < roots@.len() ==> g.valid(#[trigger] roots@[k]),
    ensures
        ascending(r@),
        forall|id: NodeId| r@.contains(id) <==> reaches(*g, roots@, id),
        r@.to_set() == reach_set(*g, roots@),
        r@.len() == reach_set(*g, roots@).len(),
{
    let n = g.nodes.len();
    let mut marked: Vec<bool> = Vec::new();
    let mut i: usize = 0;
    while i < n
        invariant i <= n, n == g.nodes@.len(), marked@.len() == i, forall|j: int| 0 <= j < i ==> !marked@[j],
        decreases n - i,
    {
        marked.push(false);
        i = i + 1;
    }
    let mut k: usize = 0;
    while k < roots.len()
        invariant
            n == g.nodes@.len(), marked@.len() == n, k <= roots@.len(),
            forall|t: int| 0 <= t < roots@.len() ==> g.valid(#[trigger] roots@[t]),
            forall|t: int| 0 <= t < k ==> marked@[(#[trigger] roots@[t]).0 as int],
            forall|j: int| 0 <= j < n && marked@[j] ==> reaches(*g, roots@, NodeId(j as u32)),
        decreases roots@.len() - k,
    {
        let id = roots[k];
        proof {
            let p = seq![id];
            assert(is_path(*g, p));
            assert(roots@.contains(p[0])) by { assert(roots@[k as int] == id); }
            assert(NodeId(id.0 as int as u32) == id);
        }
        marked.set(id.0 as usize, true);
        k = k + 1;
    }
    let mut i: usize = n;
    while i > 0
        invariant
            n == g.nodes@.len(), marked@.len() == n, i <= n, g.wf(),
            forall|t: int| 0 <= t < roots@.len() ==> g.valid(#[trigger] roots@[t]),
            forall|t: int| 0 <= t < roots@.len() ==> marked@[(#[trigger] roots@[t]).0 as int],
            forall|j: int| 0 <= j < n && marked@[j] ==> reaches(*g, roots@, NodeId(j as u32)),
            forall|j: int, t: int| i <= j < n && marked@[j] && 0 <= t < g.nodes@[j].src@.len()
                ==> marked@[(#[trigger] g.nodes@[j].src@[t]).0 as int],
        decreases i,
    {
        let idx = i - 1;
        if marked[idx] {
            let src = &g.nodes[idx].src;
            assert(src@ == g.nodes@[idx as int].src@);
            let ghost before = marked@;
            proof { assert(crate::graph::infer::node_wf(g.nodes@, idx as int)); }
            mark_all(&mut marked, src);
            proof {
                let me = NodeId(idx as u32);
                assert(g.srcs(me) == src@);
                assert forall|j: int| 0 <= j < n && marked@[j] implies reaches(*g, roots@, NodeId(j as u32)) by {
                    if !before[j] {
                        let u = choose|u: int| 0 <= u < src@.len() && (#[trigger] src@[u]).0 == j;
                        assert(g.srcs(me).contains(src@[u]));
                        lemma_reach_src(*g, roots@, me, src@[u]);
                        assert(NodeId(j as u32) == src@[u]);
                    }
                }
                assert forall|j: int, t: int| idx <= j < n && marked@[j] && 0 <= t < g.nodes@[j].src@.len()
                    implies marked@[(#[trigger] g.nodes@[j].src@[t]).0 as int] by {
                    assert(crate::graph::infer::node_wf(g.nodes@, j));
                    if j == idx {
                        assert(src@[t] == g.nodes@[j].src@[t]);
                        assert(marked@[src@[t].0 as int]);
                    } else {
                        if !before[j] {
                            let u = choose|u: int| 0 <= u < src@.len() && (#[trigger] src@[u]).0 == j;
                            assert(src@[u].0 < idx);
                        }
                        assert(before[j]);
                    }
                }
            }
        }
        i = idx;
    }
    let ghost m = marked@;
    proof {
        assert(closed(*g, roots@, m));
    }
    let mut r: Vec<NodeId> = Vec::new();
    let mut j: usize = 0;
    while j < n
        invariant
            n == g.nodes@.len(), marked@ == m, m.len() == n, j <= n, n <= u32::MAX,
            ascending(r@),
            forall|a: int| 0 <= a < r@.len() ==> (#[trigger] r@[a]).0 < j && m[r@[a].0 as int],
            forall|x: int| 0 <= x < j && m[x] ==> r@.contains(NodeId(x as u32)),
        decreases n - j,
    {
        if marked[j] {
            let ghost before = r@;
            r.push(NodeId(j as u32));
            proof {
                assert(r@[before.len() as int].0 == j);
                assert forall|a: int, c: int| 0 <= a < c < r@.len() implies (#[trigger] r@[a]).0 < (#[trigger] r@[c]).0 by {
                    if c < before.len() { assert(r@[a] == before[a] && r@[c] == before[c]); }
                    else { assert(r@[a] == before[a]); }
                }
                assert forall|x: int| 0 <= x < j + 1 && m[x] implies r@.contains(NodeId(x as u32)) by {
                    if x < j {
                        let a = choose|a: int| 0 <= a < before.len() && before[a] == NodeId(x as u32);
                        assert(r@[a] == before[a]);
                    } else {
                        assert(r@[before.len() as int] == NodeId(x as u32));
                    }
                }
            }
        }
        j = j + 1;
    }
    proof {
        assert forall|id: NodeId| r@.contains(id) <==> reaches(*g, roots@, id) by {
            if r@.contains(id) {
                let a = choose|a: int| 0 <= a < r@.len() && r@[a] == id;
                assert(m[id.0 as int]);
                assert(NodeId(id.0 as int as u32) == id);
            }
            if reaches(*g, roots@, id) {
                let p = choose|p: Seq<NodeId>| #[trigger] is_path(*g, p) && roots@.contains(p[0]) && p.last() == id;
                lemma_closed_path(*g, roots@, m, p);
                assert(g.valid(p[p.len() - 1]));
                assert(NodeId(id.0 as int as u32) == id);
            }
        }
        assert(r@.to_set() =~= reach_set(*g, roots@));
        assert(r@.no_duplicates()) by {
            assert forall|a: int, c: int| 0 <= a < r@.len() && 0 <= c < r@.len() && a != c implies r@[a] != r@[c] by {
                if a < c { assert(r@[a].0 < r@[c].0); } else { assert(r@[c].0 < r@[a].0); }
            }
        }
        r@.unique_seq_to_set();
    }
    r
}

/// Nodes reachable from `root` in topological order (each node after its sources).
pub fn reachable(g: &Graph, root: NodeId) -> (r: Vec<NodeId>)
    requires g.wf(), g.valid(root),
    ensures
        ascending(r@),
        forall|id: NodeId| r@.contains(id) <==> reaches(*g, seq![root], id),
        r@.len() == reach_set(*g, seq![root]).len(),
{
    let roots = [root];
    assert(roots@ =~= seq![root]);
    reachable_multi(g, &roots)
}

/// Number of distinct nodes reachable from `root` (the size metric a rewrite pass shrinks).
pub fn node_count(g: &Graph, root: NodeId) -> (n: usize)
    requires g.wf(), g.valid(root),
    ensures n == reach_set(*g, seq![root]).len(),
{
    reachable(g, root).len()
}

} // verus!

verus! {

/// Every root reaches itself.
pub proof fn lemma_root_reaches(g: Graph, roots: Seq<NodeId>, k: int)
    requires 0 <= k < roots.len(), g.valid(roots[k]),
    ensures reaches(g, roots, roots[k]),
{
    let p = seq![roots[k]];
    assert(is_path(g, p));
    assert(roots.contains(p[0]));
}

/// A strictly ascending list holds each id at one position only.
pub proof fn lemma_ascending_unique(v: Seq<NodeId>, i: int, j: int)
    requires ascending(v), 0 <= i < v.len(), 0 <= j < v.len(), v[i] == v[j],
    ensures i == j,
{
    if i < j {
        assert(v[i].0 < v[j].0);
    } else if j < i {
        assert(v[j].0 < v[i].0);
    }
}

} // verus!

verus! {

/// A reachable node is a node of the graph.
pub proof fn lemma_reached_valid(g: Graph, roots: Seq<NodeId>, id: NodeId)
    requires reaches(g, roots, id),
    ensures g.valid(id),
{
    let p = choose|p: Seq<NodeId>| #[trigger] is_path(g, p) && roots.contains(p[0]) && p.last() == id;
    assert(g.valid(p[p.len() - 1]));
}

} // verus!
