//! Record-time and decode errors.

use vstd::prelude::*;
use crate::dtype::DType;

verus! {

/// What went wrong, with the values that made it go wrong.
#[derive(Debug)]
pub enum ErrorKind {
    /// Two operands' shapes differ.
    ShapeMismatch,
    /// Two operands' dtypes differ.
    DTypeMismatch(DType, DType),
    /// An operand's dtype is not of the class the op needs.
    DTypeClass(DType),
    /// An axis is not below the rank.
    AxisOutOfRange { axis: usize, rank: usize },
    /// Any other invalid argument or shape combination.
    Invalid,
    /// A graph blob is malformed.
    Decode,
}

/// An error from an op builder or the blob decoder: the op that refused and why.
#[derive(Debug)]
pub struct Error {
    pub op: &'static str,
    pub kind: ErrorKind,
}

impl Error {
    pub fn new(op: &'static str, kind: ErrorKind) -> (e: Error)
        ensures e.op == op, e.kind == kind,
    {
        Error { op, kind }
    }
}

} // verus!
