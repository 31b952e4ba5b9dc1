//! Binary serialization of the graph IR: the closed op set and source edges, plus N named
//! entry points (each with its output roots and input bindings) over one shared node arena,
//! as a self-contained blob. Decoding replays node construction in id order and re-infers
//! every shape and dtype, so only ops, attributes and source ids reach the wire.
//! The format is specified in `wire`; `encode` writes it and `decode` reads it back.

use vstd::prelude::*;
use crate::graph::{Graph, NodeId};

pub mod wire;
pub mod opcode;
pub mod blob;
pub mod encode;
pub mod decode;

pub use encode::{serialize_graph, serialize_multi, serialize_reachable};
pub use decode::{deserialize_graph, deserialize_multi};




verus! {

/// Whether a serialized `Input` binds a stored weight (by name) or is fed by the caller.
#[derive(Clone, Copy, PartialEq, Eq, Structural, Debug)]
pub enum InputRole {
    Weight,
    Runtime,
}

/// A serialized graph `Input`: its node, whether it is a weight or a runtime feed, and its name.
#[derive(Clone, PartialEq, Eq, Debug)]
pub struct InputBinding {
    pub node: NodeId,
    pub role: InputRole,
    pub name: String,
}

/// A decoded runnable graph: the rebuilt graph plus entry 0's outputs and input bindings.
pub struct Runnable {
    pub graph: Graph,
    pub outputs: Vec<NodeId>,
    pub inputs: Vec<InputBinding>,
}

/// One named entry point of a blob: its output roots and input bindings over the shared arena.
pub struct Entry {
    pub name: String,
    pub outputs: Vec<NodeId>,
    pub inputs: Vec<InputBinding>,
}

/// A decoded multi-entry blob: one shared node arena plus its named entries.
pub struct MultiRunnable {
    pub graph: Graph,
    pub entries: Vec<Entry>,
}

} // verus!
