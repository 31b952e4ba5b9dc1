//! Element types of tensors.

use vstd::prelude::*;

verus! {

/// Element type of a tensor.
#[derive(Clone, Copy, PartialEq, Eq, Structural, Debug, Hash)]
#[allow(non_camel_case_types)]
pub enum DType {
    BOOL,
    U8,
    U16,
    U32,
    U64,
    I8,
    I16,
    I32,
    I64,
    F8E4M3,
    F8E5M2,
    F16,
    BF16,
    F32,
    F64,
    C64,
    C128,
}

impl DType {
    pub open spec fn spec_is_float(self) -> bool {
        matches!(self, DType::F8E4M3 | DType::F8E5M2 | DType::F16 | DType::BF16 | DType::F32 | DType::F64)
    }

    pub open spec fn spec_is_int(self) -> bool {
        matches!(
            self,
            DType::U8 | DType::U16 | DType::U32 | DType::U64 | DType::I8 | DType::I16 | DType::I32 | DType::I64
        )
    }

    pub open spec fn spec_is_complex(self) -> bool {
        matches!(self, DType::C64 | DType::C128)
    }

    /// Signed element types: the signed integers and every float.
    pub open spec fn spec_is_signed(self) -> bool {
        matches!(self, DType::I8 | DType::I16 | DType::I32 | DType::I64) || self.spec_is_float()
    }

    /// Ordered arithmetic types: integers and floats (not bool, not complex).
    pub open spec fn spec_is_numeric(self) -> bool {
        self.spec_is_int() || self.spec_is_float()
    }

    /// Field arithmetic: numeric or complex.
    pub open spec fn spec_is_arith(self) -> bool {
        self.spec_is_numeric() || self.spec_is_complex()
    }

    pub open spec fn spec_real_dtype(self) -> DType {
        match self {
            DType::C64 => DType::F32,
            DType::C128 => DType::F64,
            d => d,
        }
    }

    /// Size of one element in bytes.
    pub open spec fn spec_size(self) -> nat {
        match self {
            DType::BOOL | DType::U8 | DType::I8 | DType::F8E4M3 | DType::F8E5M2 => 1,
            DType::U16 | DType::I16 | DType::F16 | DType::BF16 => 2,
            DType::U32 | DType::I32 | DType::F32 => 4,
            DType::U64 | DType::I64 | DType::F64 | DType::C64 => 8,
            DType::C128 => 16,
        }
    }

    #[verifier::when_used_as_spec(spec_is_float)]
    pub fn is_float(self) -> (b: bool)
        ensures b == self.spec_is_float(),
    {
        matches!(self, DType::F8E4M3 | DType::F8E5M2 | DType::F16 | DType::BF16 | DType::F32 | DType::F64)
    }

    #[verifier::when_used_as_spec(spec_is_int)]
    pub fn is_int(self) -> (b: bool)
        ensures b == self.spec_is_int(),
    {
        matches!(
            self,
            DType::U8 | DType::U16 | DType::U32 | DType::U64 | DType::I8 | DType::I16 | DType::I32 | DType::I64
        )
    }

    #[verifier::when_used_as_spec(spec_is_complex)]
    pub fn is_complex(self) -> (b: bool)
        ensures b == self.spec_is_complex(),
    {
        matches!(self, DType::C64 | DType::C128)
    }

    #[verifier::when_used_as_spec(spec_is_signed)]
    pub fn is_signed(self) -> (b: bool)
        ensures b == self.spec_is_signed(),
    {
        matches!(self, DType::I8 | DType::I16 | DType::I32 | DType::I64) || self.is_float()
    }

    #[verifier::when_used_as_spec(spec_is_numeric)]
    pub fn is_numeric(self) -> (b: bool)
        ensures b == self.spec_is_numeric(),
    {
        self.is_int() || self.is_float()
    }

    #[verifier::when_used_as_spec(spec_is_arith)]
    pub fn is_arith(self) -> (b: bool)
        ensures b == self.spec_is_arith(),
    {
        self.is_numeric() || self.is_complex()
    }

    /// Real counterpart of a complex type (C64 -> F32, C128 -> F64); other types map to themselves.
    #[verifier::when_used_as_spec(spec_real_dtype)]
    pub fn to_real(self) -> (d: DType)
        ensures d == self.spec_real_dtype(),
    {
        match self {
            DType::C64 => DType::F32,
            DType::C128 => DType::F64,
            d => d,
        }
    }

    /// Bytes per element.
    pub fn size(self) -> (n: usize)
        ensures n == self.spec_size(),
    {
        match self {
            DType::BOOL | DType::U8 | DType::I8 | DType::F8E4M3 | DType::F8E5M2 => 1,
            DType::U16 | DType::I16 | DType::F16 | DType::BF16 => 2,
            DType::U32 | DType::I32 | DType::F32 => 4,
            DType::U64 | DType::I64 | DType::F64 | DType::C64 => 8,
            DType::C128 => 16,
        }
    }
}

} // verus!
