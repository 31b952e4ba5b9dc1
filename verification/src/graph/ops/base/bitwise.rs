//! Integer/bitwise primitives: integer divide, shifts, and/or/xor, bitwise not.

use vstd::prelude::*;
use crate::dtype::DType;
use crate::error::{Error, ErrorKind};
use crate::storage::Storage;
use crate::graph::{Graph, NodeId, Op};
use crate::graph::shape::ones_vec;
use crate::graph::ops::base::scalar::lemma_expand_ones;

verus! {

impl Graph {
    /// Truncating integer division (integer dtype, same shape and dtype).
    pub fn idiv(&mut self, a: NodeId, b: NodeId) -> (r: Result<NodeId, Error>)
        requires old(self).wf(), old(self).room(1), old(self).valid(a), old(self).valid(b),
        ensures
            final(self).wf(),
            r is Ok <==> old(self).dt(a).spec_is_int() && old(self).same_sd(a, b),
            r matches Ok(id) ==> final(self).pushed(*old(self), id, Op::IDiv, seq![a, b])
                && final(self).sh(id) == old(self).sh(a) && final(self).dt(id) == old(self).dt(a),
            r is Err ==> *final(self) == *old(self),
    {
        if !self.dtype(a).is_int() {
            return Err(Error::new("idiv", ErrorKind::DTypeClass(self.dtype(a))));
        }
        self.bin("idiv", Op::IDiv, a, b)
    }

    /// Left shift by the rhs value (integer dtype, same shape and dtype).
    pub fn shl(&mut self, a: NodeId, b: NodeId) -> (r: Result<NodeId, Error>)
        requires old(self).wf(), old(self).room(1), old(self).valid(a), old(self).valid(b),
        ensures
            final(self).wf(),
            r is Ok <==> old(self).dt(a).spec_is_int() && old(self).same_sd(a, b),
            r matches Ok(id) ==> final(self).pushed(*old(self), id, Op::Shl, seq![a, b])
                && final(self).sh(id) == old(self).sh(a) && final(self).dt(id) == old(self).dt(a),
            r is Err ==> *final(self) == *old(self),
    {
        if !self.dtype(a).is_int() {
            return Err(Error::new("shl", ErrorKind::DTypeClass(self.dtype(a))));
        }
        self.bin("shl", Op::Shl, a, b)
    }

    /// Right shift by the rhs value (integer dtype, same shape and dtype).
    pub fn shr(&mut self, a: NodeId, b: NodeId) -> (r: Result<NodeId, Error>)
        requires old(self).wf(), old(self).room(1), old(self).valid(a), old(self).valid(b),
        ensures
            final(self).wf(),
            r is Ok <==> old(self).dt(a).spec_is_int() && old(self).same_sd(a, b),
            r matches Ok(id) ==> final(self).pushed(*old(self), id, Op::Shr, seq![a, b])
                && final(self).sh(id) == old(self).sh(a) && final(self).dt(id) == old(self).dt(a),
            r is Err ==> *final(self) == *old(self),
    {
        if !self.dtype(a).is_int() {
            return Err(Error::new("shr", ErrorKind::DTypeClass(self.dtype(a))));
        }
        self.bin("shr", Op::Shr, a, b)
    }

    /// Bitwise/logical and (bool or integer dtype).
    pub fn and(&mut self, a: NodeId, b: NodeId) -> (r: Result<NodeId, Error>)
        requires old(self).wf(), old(self).room(1), old(self).valid(a), old(self).valid(b),
        ensures
            final(self).wf(),
            r is Ok <==> !old(self).dt(a).spec_is_float() && old(self).same_sd(a, b),
            r matches Ok(id) ==> final(self).pushed(*old(self), id, Op::And, seq![a, b])
                && final(self).sh(id) == old(self).sh(a) && final(self).dt(id) == old(self).dt(a),
            r is Err ==> *final(self) == *old(self),
    {
        self.require("and", a, !self.dtype(a).is_float())?;
        self.bin("and", Op::And, a, b)
    }

    /// Bitwise/logical or (bool or integer dtype).
    pub fn or(&mut self, a: NodeId, b: NodeId) -> (r: Result<NodeId, Error>)
        requires old(self).wf(), old(self).room(1), old(self).valid(a), old(self).valid(b),
        ensures
            final(self).wf(),
            r is Ok <==> !old(self).dt(a).spec_is_float() && old(self).same_sd(a, b),
            r matches Ok(id) ==> final(self).pushed(*old(self), id, Op::Or, seq![a, b])
                && final(self).sh(id) == old(self).sh(a) && final(self).dt(id) == old(self).dt(a),
            r is Err ==> *final(self) == *old(self),
    {
        self.require("or", a, !self.dtype(a).is_float())?;
        self.bin("or", Op::Or, a, b)
    }

    /// Bitwise/logical xor (bool or integer dtype).
    pub fn xor(&mut self, a: NodeId, b: NodeId) -> (r: Result<NodeId, Error>)
        requires old(self).wf(), old(self).room(1), old(self).valid(a), old(self).valid(b),
        ensures
            final(self).wf(),
            r is Ok <==> !old(self).dt(a).spec_is_float() && old(self).same_sd(a, b),
            r matches Ok(id) ==> final(self).pushed(*old(self), id, Op::Xor, seq![a, b])
                && final(self).sh(id) == old(self).sh(a) && final(self).dt(id) == old(self).dt(a),
            r is Err ==> *final(self) == *old(self),
    {
        self.require("xor", a, !self.dtype(a).is_float())?;
        self.bin("xor", Op::Xor, a, b)
    }

    /// Bitwise NOT of an I32/I64/U8/U32 tensor: `x ^ all_ones`.
    pub fn bitwise_not(&mut self, x: NodeId) -> (r: Result<NodeId, Error>)
        requires old(self).wf(), old(self).room(3), old(self).valid(x),
        ensures
            final(self).wf(),
            final(self).grew(*old(self), 3),
            r is Ok <==> matches!(old(self).dt(x), DType::I32 | DType::I64 | DType::U8 | DType::U32),
            r matches Ok(id) ==> final(self).valid(id) && final(self).sh(id) == old(self).sh(x)
                && final(self).dt(id) == old(self).dt(x),
            r is Err ==> *final(self) == *old(self),
            r matches Ok(id) ==> ({
                let g = *final(self);
                let e = g.arg(id, 1);
                &&& g.node_is(id, Op::Xor, seq![x, e])
                &&& g.opn(e) is Expand && g.srcs(e).len() == 1
                &&& g.opn(g.arg(e, 0)) matches Op::Const { data, .. } && data.spec_dtype() == old(self).dt(x)
                    && data.spec_bytes().len() == old(self).dt(x).spec_size()
                    && forall|k: int| 0 <= k < data.spec_bytes().len() ==> data.spec_bytes()[k] == 0xffu8
            }),
    {
        let dt = self.dtype(x);
        let n: usize = match dt {
            DType::I32 | DType::U32 => 4,
            DType::I64 => 8,
            DType::U8 => 1,
            _ => { return Err(Error::new("bitwise_not", ErrorKind::DTypeClass(dt))); },
        };
        let mut bytes: Vec<u8> = Vec::new();
        let mut k: usize = 0;
        while k < n
            invariant k <= n, bytes@.len() == k, forall|j: int| 0 <= j < k ==> bytes@[j] == 0xffu8,
            decreases n - k,
        {
            bytes.push(0xff);
            k = k + 1;
        }
        let ones = Storage::new(dt, bytes);
        let sh = self.shape(x);
        let c = self.const_storage(ones, ones_vec(sh.len()));
        proof { lemma_expand_ones(sh@); }
        let cb = self.expand(c, sh)?;
        self.xor(x, cb)
    }
}

} // verus!
