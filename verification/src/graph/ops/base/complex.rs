//! Complex numbers: build from real and imaginary parts, take parts, and the derived
//! conjugate, modulus and argument.

use vstd::prelude::*;
use crate::dtype::DType;
use crate::error::{Error, ErrorKind};
use crate::graph::{Graph, NodeId, Op};
use crate::graph::infer::ins_of;
use crate::graph::ops::base::scalar::ok_id;

verus! {

/// The complex dtype with parts of dtype `d`.
pub open spec fn complex_of(d: DType) -> DType {
    if d == DType::F64 { DType::C128 } else { DType::C64 }
}

impl Graph {
    /// `re + i*im` (same shape, both F32 or both F64).
    pub fn complex(&mut self, re: NodeId, im: NodeId) -> (r: Result<NodeId, Error>)
        requires old(self).wf(), old(self).room(1), old(self).valid(re), old(self).valid(im),
        ensures
            final(self).wf(),
            r is Ok <==> old(self).same_sd(re, im) && (old(self).dt(re) == DType::F32 || old(self).dt(re) == DType::F64),
            r matches Ok(id) ==> final(self).pushed(*old(self), id, Op::Complex, seq![re, im])
                && final(self).sh(id) == old(self).sh(re) && final(self).dt(id) == complex_of(old(self).dt(re)),
            r is Err ==> *final(self) == *old(self),
    {
        self.same_shape("complex", re, im)?;
        self.same_dtype("complex", re, im)?;
        let dt = self.dtype(re);
        if dt != DType::F32 && dt != DType::F64 {
            return Err(Error::new("complex", ErrorKind::DTypeClass(dt)));
        }
        let v = vec![re, im];
        assert(v@ =~= seq![re, im]);
        assert(ins_of(self.nodes@, v@)[0] == (self.sh(re), self.dt(re)));
        Ok(self.push(Op::Complex, v))
    }

    fn push_part(&mut self, op: Op, z: NodeId) -> (id: NodeId)
        requires old(self).wf(), old(self).room(1), old(self).valid(z), op == Op::Real || op == Op::Imag,
        ensures
            final(self).wf(),
            final(self).pushed(*old(self), id, op, seq![z]),
            final(self).sh(id) == old(self).sh(z), final(self).dt(id) == old(self).dt(z).spec_real_dtype(),
    {
        let v = vec![z];
        assert(v@ =~= seq![z]);
        assert(ins_of(self.nodes@, v@)[0] == (self.sh(z), self.dt(z)));
        self.push(op, v)
    }

    /// Real part of a complex tensor.
    pub fn real_part(&mut self, z: NodeId) -> (r: Result<NodeId, Error>)
        requires old(self).wf(), old(self).room(1), old(self).valid(z),
        ensures
            final(self).wf(),
            r is Ok <==> old(self).dt(z).spec_is_complex(),
            r matches Ok(id) ==> final(self).pushed(*old(self), id, Op::Real, seq![z])
                && final(self).sh(id) == old(self).sh(z) && final(self).dt(id) == old(self).dt(z).spec_real_dtype(),
            r matches Err(e) ==> *final(self) == *old(self) && e.kind == ErrorKind::DTypeClass(old(self).dt(z)),
    {
        self.require("real", z, self.dtype(z).is_complex())?;
        Ok(self.push_part(Op::Real, z))
    }

    /// Imaginary part of a complex tensor.
    pub fn imag(&mut self, z: NodeId) -> (r: Result<NodeId, Error>)
        requires old(self).wf(), old(self).room(1), old(self).valid(z),
        ensures
            final(self).wf(),
            r is Ok <==> old(self).dt(z).spec_is_complex(),
            r matches Ok(id) ==> final(self).pushed(*old(self), id, Op::Imag, seq![z])
                && final(self).sh(id) == old(self).sh(z) && final(self).dt(id) == old(self).dt(z).spec_real_dtype(),
            r matches Err(e) ==> *final(self) == *old(self) && e.kind == ErrorKind::DTypeClass(old(self).dt(z)),
    {
        self.require("imag", z, self.dtype(z).is_complex())?;
        Ok(self.push_part(Op::Imag, z))
    }

    /// Complex conjugate: `re - i*im`.
    pub fn conj(&mut self, z: NodeId) -> (r: Result<NodeId, Error>)
        requires old(self).wf(), old(self).room(4), old(self).valid(z),
        ensures
            final(self).wf(), final(self).grew(*old(self), 4),
            r is Ok <==> old(self).dt(z).spec_is_complex(),
            r matches Ok(id) ==> final(self).valid(id) && final(self).sh(id) == old(self).sh(z)
                && final(self).dt(id) == old(self).dt(z),
            r matches Ok(id) ==> ({
                let g = *final(self);
                let nim = g.arg(id, 1);
                &&& g.node_is(id, Op::Complex, seq![g.arg(id, 0), nim])
                &&& g.node_is(g.arg(id, 0), Op::Real, seq![z])
                &&& g.node_is(nim, Op::Neg, seq![g.arg(nim, 0)])
                &&& g.node_is(g.arg(nim, 0), Op::Imag, seq![z])
            }),
    {
        let re = self.real_part(z)?;
        let im = ok_id(self.imag(z));
        let nim = self.neg(im);
        self.complex(re, nim)
    }

    /// Modulus `sqrt(re^2 + im^2)` (real dtype of the parts).
    pub fn cabs(&mut self, z: NodeId) -> (r: Result<NodeId, Error>)
        requires old(self).wf(), old(self).room(6), old(self).valid(z),
        ensures
            final(self).wf(), final(self).grew(*old(self), 6),
            r is Ok <==> old(self).dt(z).spec_is_complex(),
            r matches Ok(id) ==> final(self).valid(id) && final(self).sh(id) == old(self).sh(z)
                && final(self).dt(id) == old(self).dt(z).spec_real_dtype(),
            r matches Ok(id) ==> ({
                let g = *final(self);
                let s = g.arg(id, 0);
                let r2 = g.arg(s, 0);
                let i2 = g.arg(s, 1);
                &&& g.node_is(id, Op::Sqrt, seq![s])
                &&& g.node_is(s, Op::Add, seq![r2, i2])
                &&& g.node_is(r2, Op::Mul, seq![g.arg(r2, 0), g.arg(r2, 0)]) && g.node_is(g.arg(r2, 0), Op::Real, seq![z])
                &&& g.node_is(i2, Op::Mul, seq![g.arg(i2, 0), g.arg(i2, 0)]) && g.node_is(g.arg(i2, 0), Op::Imag, seq![z])
            }),
            r is Err ==> *final(self) == *old(self),
    {
        let re = self.real_part(z)?;
        let im = ok_id(self.imag(z));
        let r2 = self.square(re);
        let i2 = self.square(im);
        let s = ok_id(self.add(r2, i2));
        Ok(self.sqrt(s))
    }

    /// Argument `atan2(im, re)` (real dtype of the parts).
    pub fn angle(&mut self, z: NodeId) -> (r: Result<NodeId, Error>)
        requires old(self).wf(), old(self).room(75), old(self).valid(z),
        ensures
            final(self).wf(), final(self).grew(*old(self), 75),
            r is Ok <==> old(self).dt(z).spec_is_complex(),
            r matches Ok(id) ==> final(self).valid(id) && final(self).sh(id) == old(self).sh(z)
                && final(self).dt(id) == old(self).dt(z).spec_real_dtype(),
    {
        let re = self.real_part(z)?;
        let im = ok_id(self.imag(z));
        Ok(ok_id(self.atan2(im, re)))
    }
}

} // verus!
