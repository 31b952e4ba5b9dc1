//! Record-time inference: a node's dtype and shape, derived from its op and its sources'
//! already-stored shapes and dtypes, and the conditions under which that derivation is defined.

use vstd::prelude::*;
use crate::dtype::DType;
use crate::graph::op::{Node, NodeId, Op};

verus! {

/// Shape and dtype of each source, in order.
pub type Ins = Seq<(Seq<usize>, DType)>;

pub open spec fn ins_of(nodes: Seq<Node>, src: Seq<NodeId>) -> Ins {
    src.map_values(|id: NodeId| (nodes[id.0 as int].shape@, nodes[id.0 as int].dtype))
}

pub open spec fn srcs_below(src: Seq<NodeId>, n: int) -> bool {
    forall|k: int| 0 <= k < src.len() ==> (#[trigger] src[k]).0 < n
}

pub open spec fn contains_usize(v: Seq<usize>, x: usize) -> bool {
    exists|k: int| 0 <= k < v.len() && v[k] == x
}

/// Axes `0..k` (ascending) that are neither batch nor contract axes.
pub open spec fn free_upto(batch: Seq<usize>, contract: Seq<usize>, k: nat) -> Seq<usize>
    decreases k,
{
    if k == 0 {
        Seq::empty()
    } else {
        let prev = free_upto(batch, contract, (k - 1) as nat);
        let a = (k - 1) as usize;
        if !contains_usize(batch, a) && !contains_usize(contract, a) {
            prev.push(a)
        } else {
            prev
        }
    }
}

pub proof fn lemma_free_upto_below(batch: Seq<usize>, contract: Seq<usize>, k: nat)
    requires k <= usize::MAX + 1,
    ensures
        forall|i: int| 0 <= i < free_upto(batch, contract, k).len() ==> #[trigger] free_upto(batch, contract, k)[i] < k,
        free_upto(batch, contract, k).len() <= k,
    decreases k,
{
    if k > 0 {
        lemma_free_upto_below(batch, contract, (k - 1) as nat);
    }
}

pub open spec fn ceil_div(a: int, b: int) -> int {
    (a + b - 1) / b
}

pub open spec fn min_nat(a: nat, b: nat) -> nat {
    if a <= b { a } else { b }
}

/// Number of sources the derivation reads.
pub open spec fn min_src(op: Op) -> nat {
    match op {
        Op::Const { .. } | Op::Input { .. } | Op::Iota { .. } | Op::RandUniform { .. } => 0,
        Op::Where | Op::DotGeneral { .. } | Op::Gather { .. } | Op::GatherAlong { .. } | Op::Solve
        | Op::QuantMatmul { .. } => 2,
        _ => 1,
    }
}

/// The derivation is defined: enough sources, axes in range, no arithmetic overflow.
pub open spec fn infer_ok(op: Op, ins: Ins) -> bool {
    &&& ins.len() >= min_src(op)
    &&& match op {
        Op::Sum { axis } | Op::Prod { axis } | Op::ReduceMax { axis } | Op::ArgReduce { axis, .. }
        | Op::Gather { axis } => axis < ins[0].0.len(),
        Op::Permute { perm } => forall|i: int| 0 <= i < perm@.len() ==> #[trigger] perm@[i] < ins[0].0.len(),
        Op::Slice { ranges } => forall|i: int|
            0 <= i < ranges@.len() ==> (#[trigger] ranges@[i]).2 > 0 && ranges@[i].0 <= ranges@[i].1,
        Op::Pad { pads } => forall|i: int|
            0 <= i < pads@.len() && i < ins[0].0.len() ==> (#[trigger] pads@[i]).0 + ins[0].0[i] + pads@[i].1
                <= usize::MAX,
        Op::DotGeneral { lhs_batch, rhs_batch, .. } =>
            (forall|i: int| 0 <= i < lhs_batch@.len() ==> #[trigger] lhs_batch@[i] < ins[0].0.len())
            && (forall|i: int| 0 <= i < rhs_batch@.len() ==> #[trigger] rhs_batch@[i] < ins[1].0.len()),
        Op::Eigh => ins[0].0.len() >= 1 && ins[0].0.last() < usize::MAX,
        Op::Qr { .. } | Op::Det => ins[0].0.len() >= 2,
        Op::Eigvals => ins[0].0.len() >= 1,
        Op::QuantMatmul { .. } => ins[0].0.len() >= 1 && ins[1].0.len() >= 1,
        _ => true,
    }
}

pub open spec fn dot_shape(
    a: Seq<usize>,
    b: Seq<usize>,
    lc: Seq<usize>,
    rc: Seq<usize>,
    lb: Seq<usize>,
    rb: Seq<usize>,
) -> Seq<usize> {
    let lf = free_upto(lb, lc, a.len());
    let rf = free_upto(rb, rc, b.len());
    lb.map_values(|i: usize| a[i as int]) + lf.map_values(|i: usize| a[i as int]) + rf.map_values(
        |i: usize| b[i as int],
    )
}

/// Output shape of `op` over sources with the given shapes.
pub open spec fn derive_shape(op: Op, ins: Ins) -> Seq<usize> {
    match op {
        Op::Const { shape, .. } | Op::Input { shape, .. } | Op::Iota { shape, .. } | Op::RandUniform { shape } =>
            shape@,
        Op::Sum { axis } | Op::Prod { axis } | Op::ReduceMax { axis } | Op::ArgReduce { axis, .. } =>
            ins[0].0.remove(axis as int),
        Op::Reshape { shape } | Op::Expand { shape } => shape@,
        Op::Permute { perm } => perm@.map_values(|p: usize| ins[0].0[p as int]),
        Op::Slice { ranges } => ranges@.map_values(
            |r: (usize, usize, usize)| ceil_div(r.1 - r.0, r.2 as int) as usize,
        ),
        Op::Pad { pads } => Seq::new(
            min_nat(pads@.len(), ins[0].0.len()),
            |i: int| (pads@[i].0 + ins[0].0[i] + pads@[i].1) as usize,
        ),
        Op::DotGeneral { lhs_contract, rhs_contract, lhs_batch, rhs_batch } =>
            dot_shape(ins[0].0, ins[1].0, lhs_contract@, rhs_contract@, lhs_batch@, rhs_batch@),
        Op::Gather { axis } => ins[0].0.take(axis as int) + ins[1].0 + ins[0].0.skip(axis + 1),
        Op::GatherAlong { .. } | Op::Solve => ins[1].0,
        Op::Eigh => ins[0].0.update(ins[0].0.len() - 1, (ins[0].0.last() + 1) as usize),
        Op::Qr { r_factor } => {
            let s = ins[0].0;
            let r = s.len();
            let k = if s[r - 2] <= s[r - 1] { s[r - 2] } else { s[r - 1] };
            if r_factor { s.update(r - 2, k) } else { s.update(r - 1, k) }
        },
        Op::Eigvals => ins[0].0.take(ins[0].0.len() - 1),
        Op::Det => ins[0].0.take(ins[0].0.len() - 2),
        Op::QuantMatmul { .. } => seq![ins[0].0[0], ins[1].0[0]],
        _ => ins[0].0,
    }
}

/// Output dtype of `op` over sources with the given dtypes.
pub open spec fn derive_dtype(op: Op, ins: Ins) -> DType {
    match op {
        Op::Const { data, .. } => data.spec_dtype(),
        Op::Input { dtype, .. } => dtype,
        Op::Iota { dtype, .. } => dtype,
        Op::Cast { to } | Op::Bitcast { to } => to,
        Op::CmpLt | Op::CmpEq => DType::BOOL,
        Op::ArgReduce { .. } | Op::Argsort { .. } => DType::I64,
        Op::RandUniform { .. } => DType::F32,
        Op::Where => ins[1].1,
        Op::Complex | Op::Eigvals => if ins[0].1 == DType::F64 { DType::C128 } else { DType::C64 },
        Op::Real | Op::Imag => ins[0].1.spec_real_dtype(),
        _ => ins[0].1,
    }
}

/// Node `i` of `nodes` is well formed: its sources precede it, and its stored shape and
/// dtype are the ones derived from its op and sources.
pub open spec fn node_wf(nodes: Seq<Node>, i: int) -> bool {
    let n = nodes[i];
    &&& srcs_below(n.src@, i)
    &&& infer_ok(n.op, ins_of(nodes, n.src@))
    &&& n.shape@ == derive_shape(n.op, ins_of(nodes, n.src@))
    &&& n.dtype == derive_dtype(n.op, ins_of(nodes, n.src@))
}

pub open spec fn nodes_wf(nodes: Seq<Node>) -> bool {
    forall|i: int| 0 <= i < nodes.len() ==> #[trigger] node_wf(nodes, i)
}

/// Source infos only read nodes below the sources' ids, so they survive appends.
pub proof fn lemma_ins_prefix(a: Seq<Node>, b: Seq<Node>, src: Seq<NodeId>, n: int)
    requires
        srcs_below(src, n),
        n <= a.len(),
        n <= b.len(),
        forall|j: int| 0 <= j < n ==> a[j] == b[j],
    ensures
        ins_of(a, src) == ins_of(b, src),
{
    assert(ins_of(a, src) =~= ins_of(b, src)) by {
        assert forall|k: int| 0 <= k < src.len() implies ins_of(a, src)[k] == ins_of(b, src)[k] by {
            assert(src[k].0 < n);
        }
    }
}

/// Appending a node whose sources precede it and whose shape and dtype are derived keeps
/// the arena well formed.
pub proof fn lemma_push_wf(nodes: Seq<Node>, n: Node)
    requires
        nodes_wf(nodes),
        srcs_below(n.src@, nodes.len() as int),
        infer_ok(n.op, ins_of(nodes, n.src@)),
        n.shape@ == derive_shape(n.op, ins_of(nodes, n.src@)),
        n.dtype == derive_dtype(n.op, ins_of(nodes, n.src@)),
    ensures
        nodes_wf(nodes.push(n)),
{
    let s = nodes.push(n);
    assert forall|i: int| 0 <= i < s.len() implies #[trigger] node_wf(s, i) by {
        if i < nodes.len() {
            assert(node_wf(nodes, i));
            lemma_ins_prefix(nodes, s, nodes[i].src@, i);
        } else {
            lemma_ins_prefix(nodes, s, n.src@, nodes.len() as int);
        }
    }
}

} // verus!

verus! {

/// Ops equal by value derive the same shape and dtype, under the same conditions.
pub proof fn lemma_op_eq_derive(a: Op, b: Op, ins: Ins)
    requires crate::graph::op::op_eq(a, b),
    ensures
        min_src(a) == min_src(b),
        infer_ok(a, ins) == infer_ok(b, ins),
        derive_shape(a, ins) == derive_shape(b, ins),
        derive_dtype(a, ins) == derive_dtype(b, ins),
{
}

/// Arenas that agree on the shapes and dtypes below `n` give the same source infos.
pub proof fn lemma_ins_agree(a: Seq<Node>, b: Seq<Node>, src: Seq<NodeId>, n: int)
    requires
        srcs_below(src, n),
        n <= a.len(),
        n <= b.len(),
        forall|j: int| 0 <= j < n ==> a[j].shape@ == b[j].shape@ && a[j].dtype == b[j].dtype,
    ensures
        ins_of(a, src) == ins_of(b, src),
{
    assert(ins_of(a, src) =~= ins_of(b, src)) by {
        assert forall|k: int| 0 <= k < src.len() implies ins_of(a, src)[k] == ins_of(b, src)[k] by {
            assert(src[k].0 < n);
        }
    }
}

} // verus!
