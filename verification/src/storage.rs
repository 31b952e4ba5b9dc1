//! Constant tensor payloads: an element type plus its little-endian element bytes.

use vstd::prelude::*;
use crate::dtype::DType;

verus! {

/// The data of a constant tensor: `dtype` and the little-endian bytes of its elements,
/// whole elements only (the byte count is a multiple of the element size).
#[derive(Debug)]
pub struct Storage {
    dtype: DType,
    bytes: Vec<u8>,
}

impl Storage {
    pub closed spec fn spec_dtype(&self) -> DType {
        self.dtype
    }

    pub closed spec fn spec_bytes(&self) -> Seq<u8> {
        self.bytes@
    }

    /// Number of elements.
    pub open spec fn spec_len(&self) -> nat {
        self.spec_bytes().len() / self.spec_dtype().spec_size()
    }

    pub open spec fn wf(&self) -> bool {
        self.spec_bytes().len() % self.spec_dtype().spec_size() == 0
    }

    /// Rebuild a storage from raw bytes; a trailing partial element is dropped.
    pub fn from_bytes(dtype: DType, bytes: &[u8]) -> (s: Storage)
        ensures
            s.spec_dtype() == dtype,
            s.spec_bytes() == bytes@.take((bytes@.len() - bytes@.len() % dtype.spec_size()) as int),
            s.wf(),
    {
        let keep = bytes.len() - bytes.len() % dtype.size();
        let mut v: Vec<u8> = Vec::new();
        let mut i: usize = 0;
        while i < keep
            invariant
                keep <= bytes@.len(),
                i <= keep,
                v@ == bytes@.take(i as int),
            decreases keep - i,
        {
            v.push(bytes[i]);
            i = i + 1;
            assert(v@ =~= bytes@.take(i as int));
        }
        proof {
            let sz = dtype.spec_size() as int;
            assert(sz > 0);
            assert((bytes@.len() as int - bytes@.len() as int % sz) % sz == 0) by {
                vstd::arithmetic::div_mod::lemma_fundamental_div_mod(bytes@.len() as int, sz);
                vstd::arithmetic::div_mod::lemma_mod_multiples_basic(bytes@.len() as int / sz, sz);
            }
        }
        Storage { dtype, bytes: v }
    }

    /// A storage holding exactly `bytes`, which must be whole elements.
    pub fn new(dtype: DType, bytes: Vec<u8>) -> (s: Storage)
        requires
            bytes@.len() % dtype.spec_size() == 0,
        ensures
            s.spec_dtype() == dtype,
            s.spec_bytes() == bytes@,
            s.wf(),
    {
        Storage { dtype, bytes }
    }

    #[verifier::when_used_as_spec(spec_dtype)]
    pub fn dtype(&self) -> (d: DType)
        ensures d == self.spec_dtype(),
    {
        self.dtype
    }

    /// Element count.
    pub fn len(&self) -> (n: usize)
        ensures n == self.spec_len(),
    {
        self.bytes.len() / self.dtype.size()
    }

    /// The raw little-endian element bytes.
    pub fn to_bytes(&self) -> (b: Vec<u8>)
        ensures b@ == self.spec_bytes(),
    {
        self.bytes.clone()
    }

    /// An equal copy.
    pub fn duplicate(&self) -> (s: Storage)
        ensures s.spec_dtype() == self.spec_dtype(), s.spec_bytes() == self.spec_bytes(),
    {
        Storage { dtype: self.dtype, bytes: self.bytes.clone() }
    }

    /// Borrow the raw bytes.
    pub fn bytes(&self) -> (b: &[u8])
        ensures b@ == self.spec_bytes(),
    {
        self.bytes.as_slice()
    }
}

} // verus!
