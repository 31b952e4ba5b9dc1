//! Automatic mixed precision: every F32 `DotGeneral` in the cone of a root gets its two
//! operands cast to F16, runs in F16, and has its result cast back to F32; every other
//! node keeps its dtype. The rebuilt root has the original shape and dtype.

use vstd::prelude::*;
use crate::dtype::DType;
use crate::graph::{Graph, NodeId, Op};
use crate::graph::infer::{ins_of, node_wf, lemma_op_eq_derive};
use crate::graph::op::{op_eq, lemma_op_eq_refl};
use crate::graph::inspect::{reachable, lemma_reached_valid, lemma_reach_src, lemma_root_reaches, lemma_ascending_unique};
use crate::graph::pass::simplify::stands_for;

verus! {

/// Node `r` of `g` is node `y` of `g0` rebuilt with every F32 matmul in its cone run in F16:
/// a leaf stays itself; an F32 `DotGeneral` becomes a cast to F32 of the same contraction
/// over F16 casts of its rebuilt operands (computed in F16); any other node keeps its op and
/// has its rebuilt sources.
pub open spec fn lowered(g: Graph, r: NodeId, g0: Graph, y: NodeId) -> bool
    decreases y.0, g0.srcs(y).len() + 1,
{
    if g0.srcs(y).len() == 0 {
        r == y
    } else if g0.opn(y) is DotGeneral && g0.dt(y) == DType::F32 {
        let mm = g.arg(r, 0);
        let a = g.arg(mm, 0);
        let b = g.arg(mm, 1);
        &&& g.valid(r) && g.opn(r) == (Op::Cast { to: DType::F32 }) && g.srcs(r) == seq![mm]
        &&& op_eq(g.opn(mm), g0.opn(y)) && g.srcs(mm) == seq![a, b] && g.dt(mm) == DType::F16
        &&& g.opn(a) == (Op::Cast { to: DType::F16 }) && g.srcs(a).len() == 1
        &&& g.opn(b) == (Op::Cast { to: DType::F16 }) && g.srcs(b).len() == 1
        &&& (g0.arg(y, 0).0 < y.0 ==> lowered(g, g.arg(a, 0), g0, g0.arg(y, 0)))
        &&& (g0.arg(y, 1).0 < y.0 ==> lowered(g, g.arg(b, 0), g0, g0.arg(y, 1)))
    } else {
        &&& g.valid(r) && op_eq(g.opn(r), g0.opn(y)) && g.srcs(r).len() == g0.srcs(y).len()
        &&& lowered_srcs(g, r, g0, y, g0.srcs(y).len())
    }
}

/// The first `k` sources of `r` are the rebuilt first `k` sources of `y` (see `lowered`).
pub open spec fn lowered_srcs(g: Graph, r: NodeId, g0: Graph, y: NodeId, k: nat) -> bool
    decreases y.0, k,
{
    if k == 0 || k > g0.srcs(y).len() {
        k == 0
    } else {
        &&& lowered_srcs(g, r, g0, y, (k - 1) as nat)
        &&& (g0.arg(y, k - 1).0 < y.0 ==> lowered(g, g.arg(r, k - 1), g0, g0.arg(y, k - 1)))
    }
}

/// Sources rebuilt one by one make `lowered_srcs`.
pub proof fn lemma_lowered_srcs_intro(g: Graph, r: NodeId, g0: Graph, y: NodeId, k: nat)
    requires
        k <= g0.srcs(y).len(),
        forall|j: int| 0 <= j < k && g0.arg(y, j).0 < y.0 ==> #[trigger] lowered(g, g.arg(r, j), g0, g0.arg(y, j)),
    ensures lowered_srcs(g, r, g0, y, k),
    decreases k,
{
    if k > 0 {
        lemma_lowered_srcs_intro(g, r, g0, y, (k - 1) as nat);
        if g0.arg(y, k - 1).0 < y.0 {
            assert(lowered(g, g.arg(r, k - 1), g0, g0.arg(y, k - 1)));
        }
    }
}

/// A rebuilt node stays one as the graph grows.
pub proof fn lemma_lowered_kept(g1: Graph, g2: Graph, r: NodeId, g0: Graph, y: NodeId)
    requires g1.wf(), lowered(g1, r, g0, y), g2.extends(g1),
    ensures lowered(g2, r, g0, y),
    decreases y.0, g0.srcs(y).len() + 1,
{
    if g0.srcs(y).len() == 0 {
    } else if g0.opn(y) is DotGeneral && g0.dt(y) == DType::F32 {
        let mm = g1.arg(r, 0);
        g1.lemma_arg_kept(g2, r, 0);
        g1.lemma_arg_kept(g2, mm, 0);
        g1.lemma_arg_kept(g2, mm, 1);
        let a = g1.arg(mm, 0);
        let b = g1.arg(mm, 1);
        g1.lemma_arg_valid(mm, 0);
        g1.lemma_arg_valid(mm, 1);
        g1.lemma_arg_kept(g2, a, 0);
        g1.lemma_arg_kept(g2, b, 0);
        if g0.arg(y, 0).0 < y.0 {
            lemma_lowered_kept(g1, g2, g1.arg(a, 0), g0, g0.arg(y, 0));
        }
        if g0.arg(y, 1).0 < y.0 {
            lemma_lowered_kept(g1, g2, g1.arg(b, 0), g0, g0.arg(y, 1));
        }
    } else {
        assert(g2.nodes@[r.0 as int] == g1.nodes@[r.0 as int]);
        lemma_lowered_srcs_kept(g1, g2, r, g0, y, g0.srcs(y).len());
    }
}

/// Rebuilt sources stay rebuilt as the graph grows.
pub proof fn lemma_lowered_srcs_kept(g1: Graph, g2: Graph, r: NodeId, g0: Graph, y: NodeId, k: nat)
    requires g1.wf(), lowered_srcs(g1, r, g0, y, k), g2.extends(g1), g1.valid(r),
    ensures lowered_srcs(g2, r, g0, y, k),
    decreases y.0, k,
{
    if k > 0 && k <= g0.srcs(y).len() {
        lemma_lowered_srcs_kept(g1, g2, r, g0, y, (k - 1) as nat);
        assert(g2.nodes@[r.0 as int] == g1.nodes@[r.0 as int]);
        if g0.arg(y, k - 1).0 < y.0 {
            lemma_lowered_kept(g1, g2, g1.arg(r, k - 1), g0, g0.arg(y, k - 1));
        }
    }
}

fn ids_equal(a: &Vec<NodeId>, b: &Vec<NodeId>) -> (r: bool)
    ensures r == (a@ == b@),
{
    if a.len() != b.len() {
        return false;
    }
    let mut i: usize = 0;
    while i < a.len()
        invariant a@.len() == b@.len(), i <= a@.len(), forall|j: int| 0 <= j < i ==> a@[j] == b@[j],
        decreases a@.len() - i,
    {
        if a[i].0 != b[i].0 {
            return false;
        }
        i = i + 1;
    }
    assert(a@ =~= b@);
    true
}

/// Rebuild node `id` over remapped sources, lowering an F32 matmul to F16.
#[verifier::loop_isolation(false)]
#[verifier::spinoff_prover]
fn lower(g: &mut Graph, id: NodeId, remap: &Vec<NodeId>, Ghost(g00): Ghost<Graph>) -> (r: NodeId)
    requires
        old(g).wf(), old(g).valid(id), (id.0 as int) < remap@.len(), remap@.len() <= old(g).nodes@.len(),
        forall|x: int| 0 <= x < remap@.len() ==> stands_for(*old(g), #[trigger] remap@[x], *old(g), NodeId(x as u32)),
        g00.wf(), g00.valid(id), old(g).extends(g00), remap@.len() == g00.nodes@.len(),
        old(g).nodes@.len() < 0xffff_fffb ==> forall|k: int| 0 <= k < g00.srcs(id).len()
            ==> #[trigger] lowered(*old(g), remap@[g00.arg(id, k).0 as int], g00, g00.arg(id, k)),
    ensures
        final(g).wf(), final(g).extends(*old(g)),
        stands_for(*final(g), r, *old(g), id),
        final(g).nodes@.len() <= old(g).nodes@.len() + 4,
        old(g).nodes@.len() < 0xffff_fffb ==> lowered(*final(g), r, g00, id),
{
    let ghost g0 = *g;
    proof {
        assert(node_wf(g.nodes@, id.0 as int));
        assert(g.nodes@[id.0 as int] == g00.nodes@[id.0 as int]);
        assert(node_wf(g00.nodes@, id.0 as int));
    }
    let old_src = crate::graph::op::copy_vec(&g.nodes[id.0 as usize].src);
    if old_src.len() == 0 || g.nodes.len() >= 0xffff_fffbusize {
        return id;
    }
    let mut src: Vec<NodeId> = Vec::new();
    let mut k: usize = 0;
    while k < old_src.len()
        invariant
            k <= old_src@.len(), src@.len() == k, old_src@ == g0.srcs(id), *g == g0,
            forall|j: int| 0 <= j < k ==> src@[j] == remap@[old_src@[j].0 as int],
        decreases old_src@.len() - k,
    {
        let s = old_src[k];
        assert(s.0 < id.0);
        src.push(remap[s.0 as usize]);
        k = k + 1;
    }
    proof {
        assert(g.all_valid(src@)) by {
            assert forall|j: int| 0 <= j < src@.len() implies g.valid(#[trigger] src@[j]) by {
                let x = old_src@[j].0 as int;
                assert(stands_for(g0, remap@[x], g0, NodeId(x as u32)));
            }
        }
        assert(ins_of(g.nodes@, src@) =~= ins_of(g.nodes@, old_src@)) by {
            assert forall|j: int| 0 <= j < src@.len() implies ins_of(g.nodes@, src@)[j] == ins_of(g.nodes@, old_src@)[j] by {
                let x = old_src@[j].0 as int;
                assert(stands_for(g0, remap@[x], g0, NodeId(x as u32)));
                assert(NodeId(x as u32) == old_src@[j]);
            }
        }
    }
    let op = g.nodes[id.0 as usize].op.duplicate();
    proof { lemma_op_eq_derive(op, g0.opn(id), ins_of(g.nodes@, src@)); }
    let is_dot = match op {
        Op::DotGeneral { .. } => true,
        _ => false,
    };
    if is_dot && g.nodes[id.0 as usize].dtype == DType::F32 {
        let s0 = src[0];
        let s1 = src[1];
        assert(g.valid(src@[0]) && g.valid(src@[1]));
        let a = g.cast(s0, DType::F16);
        let b = g.cast(s1, DType::F16);
        let ghost ga = *g;
        let v = vec![a, b];
        proof {
            assert(v@ =~= seq![a, b]);
            let ins2 = ins_of(g.nodes@, v@);
            let ins1 = ins_of(g0.nodes@, src@);
            assert(ins2[0].0 == ins1[0].0 && ins2[1].0 == ins1[1].0);
        }
        let mm = g.push(op, v);
        let ghost gm = *g;
        let res = g.cast(mm, DType::F32);
        proof {
            if g0.nodes@.len() < 0xffff_fffb {
                assert(g00.srcs(id) == old_src@);
                assert(old_src@.len() >= 2);
                assert(g00.arg(id, 0) == old_src@[0] && g00.arg(id, 1) == old_src@[1]);
                assert(lowered(g0, s0, g00, old_src@[0]));
                assert(lowered(g0, s1, g00, old_src@[1]));
                lemma_lowered_kept(g0, *g, s0, g00, old_src@[0]);
                lemma_lowered_kept(g0, *g, s1, g00, old_src@[1]);
                assert(g.nodes@[mm.0 as int] == gm.nodes@[mm.0 as int]);
                assert(g.nodes@[a.0 as int] == gm.nodes@[a.0 as int]);
                assert(g.nodes@[b.0 as int] == gm.nodes@[b.0 as int]);
                assert(g.arg(res, 0) == mm && g.arg(mm, 0) == a && g.arg(mm, 1) == b);
                assert(g.arg(a, 0) == s0 && g.arg(b, 0) == s1);
                assert(g0.opn(id) == g00.opn(id));
                assert(lowered(*g, res, g00, id));
            }
        }
        res
    } else if ids_equal(&src, &old_src) {
        proof {
            if g0.nodes@.len() < 0xffff_fffb {
                lemma_op_eq_refl(g.opn(id));
                assert(g00.srcs(id) == old_src@);
                assert forall|k: int| 0 <= k < g00.srcs(id).len() && g00.arg(id, k).0 < id.0
                    implies #[trigger] lowered(*g, g.arg(id, k), g00, g00.arg(id, k)) by {
                    assert(g.arg(id, k) == src@[k]);
                    assert(lowered(g0, remap@[g00.arg(id, k).0 as int], g00, g00.arg(id, k)));
                }
                lemma_lowered_srcs_intro(*g, id, g00, id, g00.srcs(id).len());
            }
        }
        id
    } else {
        let res = g.push(op, src);
        proof {
            if g0.nodes@.len() < 0xffff_fffb {
                assert(g00.srcs(id) == old_src@);
                assert(g0.opn(id) == g00.opn(id));
                assert forall|k: int| 0 <= k < g00.srcs(id).len() && g00.arg(id, k).0 < id.0
                    implies #[trigger] lowered(*g, g.arg(res, k), g00, g00.arg(id, k)) by {
                    assert(g.arg(res, k) == src@[k]);
                    assert(lowered(g0, remap@[g00.arg(id, k).0 as int], g00, g00.arg(id, k)));
                    lemma_lowered_kept(g0, *g, src@[k], g00, g00.arg(id, k));
                }
                lemma_lowered_srcs_intro(*g, res, g00, id, g00.srcs(id).len());
            }
        }
        res
    }
}

/// Rewrite `root` so F32 matmuls run in F16 (operands cast down, result cast back up).
/// Returns the new root, a node of the same shape and dtype; the casts and F16 ops are
/// appended to the arena.
#[verifier::loop_isolation(false)]
pub fn amp(g: &mut Graph, root: NodeId) -> (r: NodeId)
    requires old(g).wf(), old(g).valid(root),
    ensures
        final(g).wf(), final(g).extends(*old(g)), stands_for(*final(g), r, *old(g), root),
        final(g).nodes@.len() < 0xffff_fffb ==> lowered(*final(g), r, *old(g), root),
{
    let ghost g0 = *g;
    let order = reachable(g, root);
    let n0 = g.nodes.len();
    let mut remap: Vec<NodeId> = Vec::new();
    let mut x: usize = 0;
    while x < n0
        invariant
            x <= n0, n0 == g0.nodes@.len(), *g == g0, g0.wf(), remap@.len() == x,
            forall|y: int| 0 <= y < x ==> #[trigger] remap@[y] == NodeId(y as u32),
        decreases n0 - x,
    {
        remap.push(NodeId(x as u32));
        x = x + 1;
    }
    let mut i: usize = 0;
    while i < order.len()
        invariant
            i <= order@.len(), n0 == g0.nodes@.len(), remap@.len() == n0,
            g.wf(), g.extends(g0),
            forall|y: int| 0 <= y < n0 ==> stands_for(*g, #[trigger] remap@[y], g0, NodeId(y as u32)),
            g.nodes@.len() < 0xffff_fffb ==> forall|j: int| 0 <= j < i
                ==> #[trigger] lowered(*g, remap@[order@[j].0 as int], g0, order@[j]),
        decreases order@.len() - i,
    {
        let id = order[i];
        proof {
            if g.nodes@.len() < 0xffff_fffb {
                assert(order@.contains(id)) by { assert(order@[i as int] == id); }
                assert(node_wf(g0.nodes@, id.0 as int)) by { lemma_reached_valid(g0, seq![root], id); }
                assert forall|k: int| 0 <= k < g0.srcs(id).len()
                    implies #[trigger] lowered(*g, remap@[g0.arg(id, k).0 as int], g0, g0.arg(id, k)) by {
                    let s = g0.arg(id, k);
                    lemma_reached_valid(g0, seq![root], id);
                    assert(g0.srcs(id).contains(s));
                    assert(s.0 < id.0);
                    lemma_reach_src(g0, seq![root], id, s);
                    assert(order@.contains(s));
                    let j = choose|j: int| 0 <= j < order@.len() && order@[j] == s;
                    if j >= i {
                        if j > i { assert(order@[i as int].0 < order@[j].0); }
                    }
                    assert(j < i);
                }
            }
        }
        proof {
            assert(order@.contains(id)) by { assert(order@[i as int] == id); }
            lemma_reached_valid(g0, seq![root], id);
            assert forall|y: int| 0 <= y < remap@.len() implies stands_for(*g, #[trigger] remap@[y], *g, NodeId(y as u32)) by {
                assert(stands_for(*g, remap@[y], g0, NodeId(y as u32)));
                assert(g0.valid(NodeId(y as u32)));
            }
        }
        let ghost gi = *g;
        let ghost ri = remap@;
        let new = lower(g, id, &remap, Ghost(g0));
        remap.set(id.0 as usize, new);
        proof {
            if g.nodes@.len() < 0xffff_fffb {
                assert forall|j: int| 0 <= j < i + 1
                    implies #[trigger] lowered(*g, remap@[order@[j].0 as int], g0, order@[j]) by {
                    if j < i {
                        assert(order@[j].0 < order@[i as int].0);
                        assert(remap@[order@[j].0 as int] == ri[order@[j].0 as int]);
                        assert(lowered(gi, ri[order@[j].0 as int], g0, order@[j]));
                        lemma_lowered_kept(gi, *g, ri[order@[j].0 as int], g0, order@[j]);
                    }
                }
            }
            assert forall|y: int| 0 <= y < n0 implies stands_for(*g, #[trigger] remap@[y], g0, NodeId(y as u32)) by {
                if y != id.0 {
                    assert(stands_for(gi, remap@[y], g0, NodeId(y as u32)));
                } else {
                    assert(NodeId(y as u32) == id);
                }
            }
        }
        i = i + 1;
    }
    proof {
        if g.nodes@.len() < 0xffff_fffb {
            lemma_root_reaches(g0, seq![root], 0);
            assert(order@.contains(root));
            let j = choose|j: int| 0 <= j < order@.len() && order@[j] == root;
            assert(lowered(*g, remap@[order@[j].0 as int], g0, order@[j]));
        }
    }
    remap[root.0 as usize]
}

} // verus!
