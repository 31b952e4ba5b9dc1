//! Base tensor substrate: primitive builders (push one `Op`) and their decompositions.

pub mod scalar;
pub mod view;
pub mod elementwise;
pub mod compare;
pub mod bitwise;
pub mod explog;
pub mod trig;
pub mod reduce;
pub mod complex;
pub mod slicing;
pub mod indexing;
pub mod contract;
pub mod join;
pub mod special;
pub mod fft;
pub mod signal;
pub mod einsum_eq;
pub mod einsum;
pub mod einsum_pair;
pub mod einsum_fold;
pub mod masks;
pub mod triangular;
pub mod scan;
pub mod repeat;
pub mod padmode;
pub mod nd;
pub mod linalg;
pub mod stats;
pub mod distance;
pub mod random;
pub mod bounded;
pub mod spatial;
