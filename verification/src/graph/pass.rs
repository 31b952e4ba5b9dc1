//! IR-to-IR rewrite passes. Each rebuilds the subgraph rooted at a node bottom-up (the
//! reachable cone in ascending id order, with a remap from old to new ids) and returns the
//! new root; new nodes are appended to the arena.

pub mod simplify;
pub mod amp;

pub use simplify::simplify;
pub use amp::amp;
