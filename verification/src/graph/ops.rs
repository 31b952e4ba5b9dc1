//! Op builders on `Graph`, grouped by domain: `core` is the base tensor substrate, `nn`
//! the ML layer composed on it.

pub mod base;
pub mod nn;
