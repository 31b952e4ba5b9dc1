//! The graph arena: an append-only vector of nodes. Every node's shape and dtype are
//! inferred from its op and sources when it is pushed, so lookups are O(1).

use vstd::prelude::*;

pub mod op;
pub mod infer;
mod derive;
pub mod shape;
pub mod f32bits;
mod check;
pub mod inspect;
pub mod ops;
pub mod pass;
pub mod serialize;

pub use op::{op_eq, ArgKind, Node, NodeId, Op, ScatterOp};
use crate::dtype::DType;
use crate::storage::Storage;
use infer::{ins_of, infer_ok, derive_shape, derive_dtype, nodes_wf, srcs_below, lemma_push_wf};

verus! {

/// An append-only arena of IR nodes.
pub struct Graph {
    pub nodes: Vec<Node>,
}

impl Graph {
    pub open spec fn len(&self) -> nat {
        self.nodes@.len()
    }

    pub open spec fn valid(&self, id: NodeId) -> bool {
        (id.0 as int) < self.nodes@.len()
    }

    pub open spec fn all_valid(&self, ids: Seq<NodeId>) -> bool {
        forall|k: int| 0 <= k < ids.len() ==> self.valid(#[trigger] ids[k])
    }

    /// Shape of node `id`.
    pub open spec fn sh(&self, id: NodeId) -> Seq<usize> {
        self.nodes@[id.0 as int].shape@
    }

    /// Dtype of node `id`.
    pub open spec fn dt(&self, id: NodeId) -> DType {
        self.nodes@[id.0 as int].dtype
    }

    /// Op of node `id`.
    pub open spec fn opn(&self, id: NodeId) -> Op {
        self.nodes@[id.0 as int].op
    }

    /// Sources of node `id`.
    pub open spec fn srcs(&self, id: NodeId) -> Seq<NodeId> {
        self.nodes@[id.0 as int].src@
    }

    /// Node `id` exists and records `op` over the sources `src`.
    pub open spec fn node_is(&self, id: NodeId, op: Op, src: Seq<NodeId>) -> bool {
        &&& self.valid(id)
        &&& self.opn(id) == op
        &&& self.srcs(id) == src
    }

    /// Source `k` of node `id`.
    pub open spec fn arg(&self, id: NodeId, k: int) -> NodeId {
        self.srcs(id)[k]
    }

    /// The sources of a node come before it.
    pub proof fn lemma_arg_valid(&self, id: NodeId, k: int)
        requires self.wf(), self.valid(id), 0 <= k < self.srcs(id).len(),
        ensures self.valid(self.arg(id, k)), self.arg(id, k).0 < id.0,
    {
        assert(infer::node_wf(self.nodes@, id.0 as int));
    }

    /// A node of `self` is the same node in a graph that extends `self`.
    pub proof fn lemma_node_kept(&self, later: Graph, id: NodeId)
        requires self.valid(id), later.extends(*self),
        ensures
            later.nodes@[id.0 as int] == self.nodes@[id.0 as int],
            later.opn(id) == self.opn(id), later.srcs(id) == self.srcs(id),
    {
    }

    /// A source of a node of `self` is the same node in a graph that extends `self`.
    pub proof fn lemma_arg_kept(&self, later: Graph, id: NodeId, k: int)
        requires self.wf(), self.valid(id), 0 <= k < self.srcs(id).len(), later.extends(*self),
        ensures
            self.valid(self.arg(id, k)),
            later.nodes@[self.arg(id, k).0 as int] == self.nodes@[self.arg(id, k).0 as int],
            later.nodes@[id.0 as int] == self.nodes@[id.0 as int],
    {
        self.lemma_arg_valid(id, k);
    }

    /// Every node is well formed and every id fits in a `NodeId`.
    pub open spec fn wf(&self) -> bool {
        &&& nodes_wf(self.nodes@)
        &&& self.nodes@.len() <= u32::MAX
    }

    /// `self` is `old` with zero or more nodes appended.
    pub open spec fn extends(&self, old: Graph) -> bool {
        &&& old.nodes@.len() <= self.nodes@.len()
        &&& forall|i: int| 0 <= i < old.nodes@.len() ==> #[trigger] self.nodes@[i] == old.nodes@[i]
    }

    /// At least `k` more nodes fit in the arena.
    pub open spec fn room(&self, k: nat) -> bool {
        self.nodes@.len() + k <= u32::MAX
    }

    /// `self` is `old` with at most `k` nodes appended.
    pub open spec fn grew(&self, old: Graph, k: nat) -> bool {
        &&& self.extends(old)
        &&& self.nodes@.len() <= old.nodes@.len() + k
    }

    /// `op` over `src` may be pushed: sources exist and the derivation is defined.
    pub open spec fn can_push(&self, op: Op, src: Seq<NodeId>) -> bool {
        &&& srcs_below(src, self.nodes@.len() as int)
        &&& infer_ok(op, ins_of(self.nodes@, src))
    }

    /// `self` is `old` plus one node `op(src)` (shape and dtype derived), whose id is `id`.
    pub open spec fn pushed(&self, old: Graph, id: NodeId, op: Op, src: Seq<NodeId>) -> bool {
        &&& self.nodes@.len() == old.nodes@.len() + 1
        &&& self.extends(old)
        &&& id.0 == old.nodes@.len()
        &&& op_eq(self.opn(id), op)
        &&& self.srcs(id) == src
        &&& self.sh(id) == derive_shape(op, ins_of(old.nodes@, src))
        &&& self.dt(id) == derive_dtype(op, ins_of(old.nodes@, src))
    }

    /// An empty graph.
    pub fn new() -> (g: Graph)
        ensures g.wf(), g.len() == 0,
    {
        Graph { nodes: Vec::new() }
    }

    /// Number of nodes in the arena.
    pub fn num_nodes(&self) -> (n: usize)
        ensures n == self.len(),
    {
        self.nodes.len()
    }

    /// Append `op(src)`, inferring its shape and dtype; returns its id.
    pub fn push(&mut self, op: Op, src: Vec<NodeId>) -> (id: NodeId)
        requires
            old(self).wf(),
            old(self).room(1),
            old(self).can_push(op, src@),
        ensures
            final(self).wf(),
            final(self).pushed(*old(self), id, op, src@),
            final(self).opn(id) == op,
    {
        let dtype = self.derive_dtype_exec(&op, &src);
        let shape = self.derive_shape_exec(&op, &src);
        let id = NodeId(self.nodes.len() as u32);
        let ghost before = self.nodes@;
        let node = Node { op, dtype, src, shape };
        proof {
            lemma_push_wf(before, node);
        }
        self.nodes.push(node);
        proof {
            assert(self.nodes@ == before.push(node));
            assert(op_eq(node.op, node.op)) by { op::lemma_op_eq_refl(node.op); }
        }
        id
    }

    /// Push `op(src)` if it may be pushed, else refuse.
    pub fn try_push(&mut self, op: Op, src: Vec<NodeId>) -> (r: Option<NodeId>)
        requires
            old(self).wf(),
        ensures
            final(self).wf(),
            r is Some <==> (old(self).room(1) && old(self).can_push(op, src@)),
            r matches Some(id) ==> final(self).pushed(*old(self), id, op, src@),
            r is None ==> *final(self) == *old(self),
    {
        if self.nodes.len() >= 0xffff_ffffusize {
            return None;
        }
        if !self.check_push(&op, &src) {
            return None;
        }
        Some(self.push(op, src))
    }

    /// Borrow node `id`.
    pub fn node(&self, id: NodeId) -> (n: &Node)
        requires self.valid(id),
        ensures *n == self.nodes@[id.0 as int],
    {
        &self.nodes[id.0 as usize]
    }

    /// Shape of node `id` (a copy).
    pub fn shape(&self, id: NodeId) -> (s: Vec<usize>)
        requires self.valid(id),
        ensures s@ == self.sh(id),
    {
        op::copy_vec(&self.nodes[id.0 as usize].shape)
    }

    /// Rank of node `id`.
    pub fn rank(&self, id: NodeId) -> (r: usize)
        requires self.valid(id),
        ensures r == self.sh(id).len(),
    {
        self.nodes[id.0 as usize].shape.len()
    }

    /// Dtype of node `id`.
    pub fn dtype(&self, id: NodeId) -> (d: DType)
        requires self.valid(id),
        ensures d == self.dt(id),
    {
        self.nodes[id.0 as usize].dtype
    }

    /// A value fed at eval time (a parameter or data input).
    pub fn input(&mut self, shape: Vec<usize>, dtype: DType) -> (id: NodeId)
        requires old(self).wf(), old(self).room(1),
        ensures
            final(self).wf(),
            final(self).pushed(*old(self), id, Op::Input { shape, dtype }, seq![]),
            final(self).sh(id) == shape@,
            final(self).dt(id) == dtype,
    {
        self.push(Op::Input { shape, dtype }, vec![])
    }

    /// A constant with the given data and shape.
    pub fn const_storage(&mut self, data: Storage, shape: Vec<usize>) -> (id: NodeId)
        requires old(self).wf(), old(self).room(1),
        ensures
            final(self).wf(),
            final(self).pushed(*old(self), id, Op::Const { data, shape }, seq![]),
            final(self).sh(id) == shape@,
            final(self).dt(id) == data.spec_dtype(),
    {
        self.push(Op::Const { data, shape }, vec![])
    }

    /// Convert `a` to dtype `to` (promotion is explicit).
    pub fn cast(&mut self, a: NodeId, to: DType) -> (id: NodeId)
        requires old(self).wf(), old(self).room(1), old(self).valid(a),
        ensures
            final(self).wf(),
            final(self).pushed(*old(self), id, Op::Cast { to }, seq![a]),
            final(self).sh(id) == old(self).sh(a),
            final(self).dt(id) == to,
    {
        let v = vec![a];
        assert(v@ =~= seq![a]);
        let id = self.push(Op::Cast { to }, v);
        proof { assert(ins_of(old(self).nodes@, seq![a])[0].0 == old(self).sh(a)); }
        id
    }

    /// Reinterpret the bits of `a` as dtype `to` (same width).
    pub fn bitcast(&mut self, a: NodeId, to: DType) -> (id: NodeId)
        requires old(self).wf(), old(self).room(1), old(self).valid(a),
        ensures
            final(self).wf(),
            final(self).pushed(*old(self), id, Op::Bitcast { to }, seq![a]),
            final(self).sh(id) == old(self).sh(a),
            final(self).dt(id) == to,
    {
        let v = vec![a];
        assert(v@ =~= seq![a]);
        let id = self.push(Op::Bitcast { to }, v);
        proof { assert(ins_of(old(self).nodes@, seq![a])[0].0 == old(self).sh(a)); }
        id
    }

    /// Identity in the forward pass that stops the gradient.
    pub fn detach(&mut self, a: NodeId) -> (id: NodeId)
        requires old(self).wf(), old(self).room(1), old(self).valid(a),
        ensures
            final(self).wf(),
            final(self).pushed(*old(self), id, Op::Detach, seq![a]),
            final(self).sh(id) == old(self).sh(a),
            final(self).dt(id) == old(self).dt(a),
    {
        let v = vec![a];
        assert(v@ =~= seq![a]);
        let id = self.push(Op::Detach, v);
        proof { assert(ins_of(old(self).nodes@, seq![a])[0] == (old(self).sh(a), old(self).dt(a))); }
        id
    }
}

} // verus!
