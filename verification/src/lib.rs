//! kurumi_core: a tensor-program IR. A `Graph` is an append-only arena of nodes, each a
//! primitive `Op` over earlier nodes, with its shape and dtype inferred when it is pushed.
//! Op builders validate their operands at record time, passes rewrite subgraphs, and the
//! serializer turns a graph into a self-contained blob and back.

pub mod dtype;
pub mod bytes;
pub mod storage;
pub mod error;
pub mod graph;
pub mod text;

pub use dtype::DType;
pub use storage::Storage;
pub use error::{Error, ErrorKind};
pub use graph::{ArgKind, Graph, Node, NodeId, Op, ScatterOp};
pub use graph::serialize::{deserialize_graph, deserialize_multi, serialize_graph, serialize_multi, serialize_reachable};
pub use graph::serialize::{Entry, InputBinding, InputRole, MultiRunnable, Runnable};
pub use graph::inspect::{node_count, reachable, reachable_multi};
pub use graph::pass::{amp, simplify};
