//! Broadcast scalar constants. A float constant is given by its IEEE-754 binary32 bit
//! pattern; it is stored as a one-element F32 constant (cast to the target dtype when that
//! differs) and expanded to the target shape, so no full tensor is materialized.

use vstd::prelude::*;
use crate::bytes::{le_u32, u32_le_bytes};
use crate::dtype::DType;
use crate::error::Error;
use crate::storage::Storage;
use crate::graph::{Graph, NodeId, Op};
use crate::graph::shape::{ones, ones_vec, expand_ok};

verus! {

/// The value of an `Ok` result.
pub fn ok_id(r: Result<NodeId, Error>) -> (id: NodeId)
    requires r is Ok,
    ensures r == Ok::<NodeId, Error>(id),
{
    match r {
        Ok(id) => id,
        Err(_) => NodeId(0),
    }
}

/// A one-element F32 storage holding the float with bit pattern `bits`.
pub fn f32_storage(bits: u32) -> (s: Storage)
    ensures s.spec_dtype() == DType::F32, s.spec_bytes() == le_u32(bits), s.wf(),
{
    let b = u32_le_bytes(bits);
    Storage::new(DType::F32, b)
}

/// A one-element BOOL storage.
pub fn bool_storage(v: bool) -> (s: Storage)
    ensures s.spec_dtype() == DType::BOOL, s.spec_bytes() == seq![if v { 1u8 } else { 0u8 }], s.wf(),
{
    let b: Vec<u8> = vec![if v { 1u8 } else { 0u8 }];
    assert(b@ =~= seq![if v { 1u8 } else { 0u8 }]);
    Storage::new(DType::BOOL, b)
}

/// Node `c` of `g` is an F32 constant holding the float with bit pattern `bits`.
#[verifier::opaque]
pub open spec fn is_f32_unit(g: Graph, c: NodeId, bits: u32) -> bool {
    g.opn(c) matches Op::Const { data, .. } && data.spec_dtype() == DType::F32 && data.spec_bytes() == le_u32(bits)
}

/// The node a broadcast `id` reads: its source, or the source of that when it is a cast.
pub open spec fn spread_source(g: Graph, id: NodeId) -> NodeId {
    let s = g.srcs(id)[0];
    if g.opn(s) is Cast { g.srcs(s)[0] } else { s }
}

/// Node `id` of `g` is a broadcast of the F32 constant `bits` (converted when needed).
#[verifier::opaque]
pub open spec fn is_scalar_of(g: Graph, id: NodeId, bits: u32) -> bool {
    &&& g.opn(id) is Expand && g.srcs(id).len() == 1
    &&& is_f32_unit(g, spread_source(g, id), bits)
}

/// Node `id` of `g` is a broadcast of the one-element BOOL constant `v`.
pub open spec fn is_bool_scalar(g: Graph, id: NodeId, v: bool) -> bool {
    &&& g.opn(id) is Expand && g.srcs(id).len() == 1
    &&& g.opn(g.srcs(id)[0]) matches Op::Const { data, .. } && data.spec_dtype() == DType::BOOL
        && data.spec_bytes() == seq![if v { 1u8 } else { 0u8 }]
}

/// A broadcast BOOL constant stays one as the graph grows.
pub proof fn lemma_bool_scalar_kept(g0: Graph, g1: Graph, id: NodeId, v: bool)
    requires g0.wf(), g0.valid(id), is_bool_scalar(g0, id, v), g1.extends(g0),
    ensures is_bool_scalar(g1, id, v),
{
    let i = id.0 as int;
    assert(crate::graph::infer::node_wf(g0.nodes@, i));
    assert(g1.nodes@[i] == g0.nodes@[i]);
    let s = g0.srcs(id)[0];
    assert(s.0 < i);
    assert(g1.nodes@[s.0 as int] == g0.nodes@[s.0 as int]);
}

/// A broadcast constant stays one as the graph grows.
pub proof fn lemma_scalar_kept(g0: Graph, g1: Graph, id: NodeId, bits: u32)
    requires g0.wf(), g0.valid(id), is_scalar_of(g0, id, bits), g1.extends(g0),
    ensures is_scalar_of(g1, id, bits),
{
    reveal(is_scalar_of);
    reveal(is_f32_unit);
    let i = id.0 as int;
    assert(crate::graph::infer::node_wf(g0.nodes@, i));
    assert(g1.nodes@[i] == g0.nodes@[i]);
    let s = g0.srcs(id)[0];
    assert(s.0 < i);
    assert(g1.nodes@[s.0 as int] == g0.nodes@[s.0 as int]);
    if g0.opn(s) is Cast {
        assert(crate::graph::infer::node_wf(g0.nodes@, s.0 as int));
        let t = g0.srcs(s)[0];
        assert(g1.nodes@[t.0 as int] == g0.nodes@[t.0 as int]);
    }
}

pub proof fn lemma_expand_ones(s: Seq<usize>)
    ensures expand_ok(ones(s.len()), s),
{
}

impl Graph {
    /// Broadcast a constant (F32 bit pattern `bits`, converted to `like`'s dtype) to
    /// `like`'s shape.
    pub fn scalar(&mut self, like: NodeId, bits: u32) -> (id: NodeId)
        requires old(self).wf(), old(self).room(3), old(self).valid(like),
        ensures
            final(self).wf(),
            final(self).grew(*old(self), 3),
            final(self).valid(id),
            final(self).sh(id) == old(self).sh(like),
            final(self).dt(id) == old(self).dt(like),
            is_scalar_of(*final(self), id, bits),
    {
        let c = self.f32_unit(like, bits);
        let ghost g1 = *self;
        let id = self.spread_like(c, like);
        proof {
            reveal(is_scalar_of);
            reveal(is_f32_unit);
            assert(self.nodes@[c.0 as int] == g1.nodes@[c.0 as int]);
        }
        id
    }

    /// The F32 constant with bit pattern `bits`, shaped `[1; rank(like)]`: host-side f32
    /// arithmetic on constants is written as graph ops on such units.
    pub fn f32_unit(&mut self, like: NodeId, bits: u32) -> (id: NodeId)
        requires old(self).wf(), old(self).room(1), old(self).valid(like),
        ensures
            final(self).wf(),
            final(self).grew(*old(self), 1), final(self).valid(id),
            final(self).sh(id) == ones(old(self).sh(like).len()),
            final(self).dt(id) == DType::F32,
            is_f32_unit(*final(self), id, bits),
    {
        let n = self.nodes[like.0 as usize].shape.len();
        let id = self.const_storage(f32_storage(bits), ones_vec(n));
        proof { reveal(is_f32_unit); }
        id
    }

    /// An F32 unit constant `c` converted to `like`'s dtype and broadcast to `like`'s shape.
    pub fn spread_like(&mut self, c: NodeId, like: NodeId) -> (id: NodeId)
        requires
            old(self).wf(), old(self).room(2), old(self).valid(c), old(self).valid(like),
            old(self).sh(c) == ones(old(self).sh(like).len()),
        ensures
            final(self).wf(),
            final(self).grew(*old(self), 2),
            final(self).valid(id),
            final(self).sh(id) == old(self).sh(like),
            final(self).dt(id) == old(self).dt(like),
            final(self).opn(id) is Expand && final(self).srcs(id).len() == 1,
            !(old(self).opn(c) is Cast) ==> spread_source(*final(self), id) == c,
    {
        let shape = self.shape(like);
        let dt = self.dtype(like);
        let c = if self.dtype(c) == dt { c } else { self.cast(c, dt) };
        proof { lemma_expand_ones(shape@); }
        ok_id(self.expand(c, shape))
    }

    /// A BOOL constant broadcast to `like`'s shape.
    pub fn bool_scalar(&mut self, like: NodeId, v: bool) -> (id: NodeId)
        requires old(self).wf(), old(self).room(2), old(self).valid(like),
        ensures
            final(self).wf(),
            final(self).grew(*old(self), 2),
            final(self).valid(id),
            final(self).sh(id) == old(self).sh(like),
            final(self).dt(id) == DType::BOOL,
            is_bool_scalar(*final(self), id, v),
    {
        let shape = self.shape(like);
        let c = self.const_storage(bool_storage(v), ones_vec(shape.len()));
        proof { lemma_expand_ones(shape@); }
        let id = ok_id(self.expand(c, shape));
        id
    }

    /// Ones shaped and typed like `like`.
    pub fn ones_like(&mut self, like: NodeId) -> (id: NodeId)
        requires old(self).wf(), old(self).room(3), old(self).valid(like),
        ensures
            final(self).wf(),
            final(self).grew(*old(self), 3),
            final(self).valid(id),
            final(self).sh(id) == old(self).sh(like),
            final(self).dt(id) == old(self).dt(like),
            is_scalar_of(*final(self), id, F32_ONE),
    {
        self.scalar(like, F32_ONE)
    }

    /// Zeros shaped and typed like `like`.
    pub fn zeros_like(&mut self, like: NodeId) -> (id: NodeId)
        requires old(self).wf(), old(self).room(3), old(self).valid(like),
        ensures
            final(self).wf(),
            final(self).grew(*old(self), 3),
            final(self).valid(id),
            final(self).sh(id) == old(self).sh(like),
            final(self).dt(id) == old(self).dt(like),
            is_scalar_of(*final(self), id, F32_ZERO),
    {
        self.scalar(like, F32_ZERO)
    }
}

pub const F32_ZERO: u32 = 0x0000_0000;
pub const F32_ONE: u32 = 0x3f80_0000;
pub const F32_NEG_ONE: u32 = 0xbf80_0000;
pub const F32_HALF: u32 = 0x3f00_0000;
pub const F32_TWO: u32 = 0x4000_0000;
pub const F32_INFINITY: u32 = 0x7f80_0000;

} // verus!
