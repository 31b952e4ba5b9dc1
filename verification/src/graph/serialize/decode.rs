//! Decoding half of the codec: a byte `Reader` whose every read is specified by the `wire`
//! specs, the per-op decoder `read_op`, and `deserialize_graph` / `deserialize_multi`,
//! which replay node construction in id order. This is a trust boundary: a malformed blob
//! (a bad length, tag or name, a constant underfilling its shape, or a node that cannot be
//! built from the nodes before it) is a clean `Decode` error, never a panic.

use vstd::prelude::*;
use vstd::utf8::{encode_utf8, valid_utf8};
use crate::bytes::{read_u32_le, read_u64_le};
use crate::dtype::DType;
use crate::error::{Error, ErrorKind};
use crate::storage::Storage;
use crate::graph::{ArgKind, NodeId, Op, ScatterOp};
use crate::graph::serialize::wire::{
    argkind_of_tag, dtype_of_tag, fixed_len_at, ids_at, pairs_at, run_len_at, scatter_of_tag, storage_bytes_at,
    storage_len_at, str_bytes_at, str_len_at, tag_len_at, triples_at, u32_at, u64_at, usize_at, usizes_at, vec_at,
};
use crate::graph::serialize::opcode::{attrs_at, body_len_at, const_ok_at, decodes_to, op_len_at, op_tag, whole};
use crate::graph::shape::numel_checked;
use crate::graph::Graph;
use crate::graph::infer::{ins_of, node_wf, lemma_op_eq_derive, lemma_ins_agree};
use crate::graph::serialize::{Entry, InputBinding, InputRole, MultiRunnable, Runnable};
use crate::graph::serialize::blob::{binding_decodes, binding_len_at, binding_off, blob_ok, declared_nodes, entries_decode, entries_ok, entry_decodes, entry_inputs_at, entry_io_decodes, entry_len_at, entry_off, entry_ok_at, header_ok, ids_v, lemma_ids_v_inj, lemma_nodes_decode_at, magic, node_len_at, node_off, node_src_at, nodes_decode, nodes_end};
use crate::graph::serialize::opcode::lemma_decodes_functional;

verus! {

/// `String::from_utf8`: succeeds exactly when `bytes` is valid UTF-8, and the string then
/// holds exactly those bytes.
#[verifier::external_body]
fn string_from_utf8(bytes: Vec<u8>) -> (r: Option<String>)
    ensures
        r is Some <==> valid_utf8(bytes@),
        r matches Some(s) ==> encode_utf8(s@) == bytes@,
{
    String::from_utf8(bytes).ok()
}

/// The error every malformed blob gets.
pub fn decode_error() -> (e: Error)
    ensures e.op == "deserialize_graph", e.kind == ErrorKind::Decode,
{
    Error::new("deserialize_graph", ErrorKind::Decode)
}

/// A cursor over a blob.
pub struct Reader<'a> {
    pub buf: &'a [u8],
    pub pos: usize,
}

impl<'a> Reader<'a> {
    pub open spec fn ok(&self) -> bool {
        self.pos <= self.buf@.len() <= usize::MAX
    }

    /// `self` is `old` with the cursor moved on (the buffer is the same).
    pub open spec fn same_buf(&self, old: Reader<'a>) -> bool {
        self.buf@ == old.buf@ && self.ok()
    }

    pub fn new(buf: &'a [u8]) -> (r: Self)
        ensures r.buf@ == buf@, r.pos == 0, r.ok(),
    {
        let _n = buf.len();
        Reader { buf, pos: 0 }
    }

    /// `n` more bytes are available.
    fn has(&self, n: u64) -> (b: bool)
        requires self.ok(),
        ensures b == (self.pos + n <= self.buf@.len()),
    {
        let rest = self.buf.len() - self.pos;
        n <= rest as u64
    }

    pub fn u8(&mut self) -> (r: Result<u8, Error>)
        requires old(self).ok(),
        ensures
            final(self).same_buf(*old(self)),
            r is Ok <==> fixed_len_at(old(self).buf@, old(self).pos as int, 1) >= 0,
            r matches Ok(v) ==> v == old(self).buf@[old(self).pos as int] && final(self).pos == old(self).pos + 1,
            r matches Err(e) ==> e.kind == ErrorKind::Decode,
    {
        if self.pos >= self.buf.len() {
            return Err(decode_error());
        }
        let v = self.buf[self.pos];
        self.pos = self.pos + 1;
        Ok(v)
    }

    pub fn u32(&mut self) -> (r: Result<u32, Error>)
        requires old(self).ok(),
        ensures
            final(self).same_buf(*old(self)),
            r is Ok <==> fixed_len_at(old(self).buf@, old(self).pos as int, 4) >= 0,
            r matches Ok(v) ==> v == u32_at(old(self).buf@, old(self).pos as int) && final(self).pos == old(self).pos + 4,
            r matches Err(e) ==> e.kind == ErrorKind::Decode,
    {
        if !self.has(4) {
            return Err(decode_error());
        }
        let v = read_u32_le(self.buf, self.pos);
        self.pos = self.pos + 4;
        Ok(v)
    }

    pub fn u64(&mut self) -> (r: Result<u64, Error>)
        requires old(self).ok(),
        ensures
            final(self).same_buf(*old(self)),
            r is Ok <==> fixed_len_at(old(self).buf@, old(self).pos as int, 8) >= 0,
            r matches Ok(v) ==> v == u64_at(old(self).buf@, old(self).pos as int) && final(self).pos == old(self).pos + 8,
            r matches Err(e) ==> e.kind == ErrorKind::Decode,
    {
        if !self.has(8) {
            return Err(decode_error());
        }
        let v = read_u64_le(self.buf, self.pos);
        self.pos = self.pos + 8;
        Ok(v)
    }

    pub fn usize(&mut self) -> (r: Result<usize, Error>)
        requires old(self).ok(),
        ensures
            final(self).same_buf(*old(self)),
            r is Ok <==> fixed_len_at(old(self).buf@, old(self).pos as int, 8) >= 0,
            r matches Ok(v) ==> v == usize_at(old(self).buf@, old(self).pos as int) && final(self).pos == old(self).pos + 8,
            r matches Err(e) ==> e.kind == ErrorKind::Decode,
    {
        let v = self.u64()?;
        Ok(v as usize)
    }

    /// Any nonzero byte reads as `true`.
    pub fn bool(&mut self) -> (r: Result<bool, Error>)
        requires old(self).ok(),
        ensures
            final(self).same_buf(*old(self)),
            r is Ok <==> fixed_len_at(old(self).buf@, old(self).pos as int, 1) >= 0,
            r matches Ok(v) ==> v == (old(self).buf@[old(self).pos as int] != 0) && final(self).pos == old(self).pos + 1,
            r matches Err(e) ==> e.kind == ErrorKind::Decode,
    {
        let v = self.u8()?;
        Ok(v != 0)
    }

    /// A tag byte of at most `max`.
    fn tag(&mut self, max: u8) -> (r: Result<u8, Error>)
        requires old(self).ok(),
        ensures
            final(self).same_buf(*old(self)),
            r is Ok <==> tag_len_at(old(self).buf@, old(self).pos as int, max) >= 0,
            r matches Ok(v) ==> v == old(self).buf@[old(self).pos as int] && v <= max && final(self).pos == old(self).pos + 1,
            r matches Err(e) ==> e.kind == ErrorKind::Decode,
    {
        let v = self.u8()?;
        if v > max {
            return Err(decode_error());
        }
        Ok(v)
    }

    pub fn dtype(&mut self) -> (r: Result<DType, Error>)
        requires old(self).ok(),
        ensures
            final(self).same_buf(*old(self)),
            r is Ok <==> tag_len_at(old(self).buf@, old(self).pos as int, 16) >= 0,
            r matches Ok(v) ==> v == dtype_of_tag(old(self).buf@[old(self).pos as int]) && final(self).pos == old(self).pos + 1,
            r matches Err(e) ==> e.kind == ErrorKind::Decode,
    {
        let t = self.tag(16)?;
        Ok(dtype_from_tag(t))
    }

    pub fn scatter(&mut self) -> (r: Result<ScatterOp, Error>)
        requires old(self).ok(),
        ensures
            final(self).same_buf(*old(self)),
            r is Ok <==> tag_len_at(old(self).buf@, old(self).pos as int, 3) >= 0,
            r matches Ok(v) ==> v == scatter_of_tag(old(self).buf@[old(self).pos as int]) && final(self).pos == old(self).pos + 1,
            r matches Err(e) ==> e.kind == ErrorKind::Decode,
    {
        let t = self.tag(3)?;
        Ok(if t == 0 { ScatterOp::Assign } else if t == 1 { ScatterOp::Add } else if t == 2 { ScatterOp::Max } else { ScatterOp::Min })
    }

    pub fn argkind(&mut self) -> (r: Result<ArgKind, Error>)
        requires old(self).ok(),
        ensures
            final(self).same_buf(*old(self)),
            r is Ok <==> tag_len_at(old(self).buf@, old(self).pos as int, 1) >= 0,
            r matches Ok(v) ==> v == argkind_of_tag(old(self).buf@[old(self).pos as int]) && final(self).pos == old(self).pos + 1,
            r matches Err(e) ==> e.kind == ErrorKind::Decode,
    {
        let t = self.tag(1)?;
        Ok(if t == 0 { ArgKind::Max } else { ArgKind::Min })
    }

    /// `n` usizes (the caller has checked they are there).
    fn usizes(&mut self, n: usize) -> (v: Vec<usize>)
        requires old(self).ok(), old(self).pos + 8 * n <= old(self).buf@.len(),
        ensures
            final(self).same_buf(*old(self)),
            final(self).pos == old(self).pos + 8 * n,
            v@ == usizes_at(old(self).buf@, old(self).pos as int, n as nat),
    {
        let ghost p0 = self.pos as int;
        let mut v: Vec<usize> = Vec::new();
        let mut i: usize = 0;
        while i < n
            invariant
                self.buf@ == old(self).buf@, self.buf@.len() <= usize::MAX, i <= n, p0 + 8 * n <= self.buf@.len(),
                self.pos == p0 + 8 * i,
                v@ == usizes_at(self.buf@, p0, i as nat),
            decreases n - i,
        {
            let x = read_u64_le(self.buf, self.pos) as usize;
            self.pos = self.pos + 8;
            v.push(x);
            i = i + 1;
            assert(v@ =~= usizes_at(self.buf@, p0, i as nat));
        }
        v
    }

    /// A u32 count of `w`-usize records that fits in the rest of the buffer.
    fn run_count(&mut self, w: u64) -> (r: Result<usize, Error>)
        requires old(self).ok(), 1 <= w <= 3,
        ensures
            final(self).same_buf(*old(self)),
            r is Ok <==> run_len_at(old(self).buf@, old(self).pos as int, w as int) >= 0,
            r matches Ok(n) ==> n == u32_at(old(self).buf@, old(self).pos as int) && final(self).pos == old(self).pos + 4
                && final(self).pos + 8 * w * n <= final(self).buf@.len(),
            r matches Err(e) ==> e.kind == ErrorKind::Decode,
    {
        let n = self.u32()?;
        assert(8 * w * (n as u64) <= 24 * 4294967296) by (nonlinear_arith) requires w <= 3, n <= u32::MAX;
        if !self.has(8 * w * (n as u64)) {
            return Err(decode_error());
        }
        Ok(n as usize)
    }

    pub fn vec_usize(&mut self) -> (r: Result<Vec<usize>, Error>)
        requires old(self).ok(),
        ensures
            final(self).same_buf(*old(self)),
            r is Ok <==> run_len_at(old(self).buf@, old(self).pos as int, 1) >= 0,
            r matches Ok(v) ==> v@ == vec_at(old(self).buf@, old(self).pos as int)
                && final(self).pos == old(self).pos + run_len_at(old(self).buf@, old(self).pos as int, 1),
            r matches Err(e) ==> e.kind == ErrorKind::Decode,
    {
        let n = self.run_count(1)?;
        Ok(self.usizes(n))
    }

    pub fn triples(&mut self) -> (r: Result<Vec<(usize, usize, usize)>, Error>)
        requires old(self).ok(),
        ensures
            final(self).same_buf(*old(self)),
            r is Ok <==> run_len_at(old(self).buf@, old(self).pos as int, 3) >= 0,
            r matches Ok(v) ==> v@ == triples_at(old(self).buf@, old(self).pos as int)
                && final(self).pos == old(self).pos + run_len_at(old(self).buf@, old(self).pos as int, 3),
            r matches Err(e) ==> e.kind == ErrorKind::Decode,
    {
        let ghost p = self.pos as int;
        let n = self.run_count(3)?;
        let mut v: Vec<(usize, usize, usize)> = Vec::new();
        let mut i: usize = 0;
        while i < n
            invariant
                self.buf@ == old(self).buf@, self.buf@.len() <= usize::MAX, i <= n, p + 4 + 24 * n <= self.buf@.len(),
                self.pos == p + 4 + 24 * i,
                v@ =~= triples_at(self.buf@, p).take(i as int),
                n == u32_at(self.buf@, p),
            decreases n - i,
        {
            let a = read_u64_le(self.buf, self.pos) as usize;
            let b = read_u64_le(self.buf, self.pos + 8) as usize;
            let c = read_u64_le(self.buf, self.pos + 16) as usize;
            self.pos = self.pos + 24;
            v.push((a, b, c));
            i = i + 1;
            assert(v@ =~= triples_at(self.buf@, p).take(i as int));
        }
        Ok(v)
    }

    pub fn pairs(&mut self) -> (r: Result<Vec<(usize, usize)>, Error>)
        requires old(self).ok(),
        ensures
            final(self).same_buf(*old(self)),
            r is Ok <==> run_len_at(old(self).buf@, old(self).pos as int, 2) >= 0,
            r matches Ok(v) ==> v@ == pairs_at(old(self).buf@, old(self).pos as int)
                && final(self).pos == old(self).pos + run_len_at(old(self).buf@, old(self).pos as int, 2),
            r matches Err(e) ==> e.kind == ErrorKind::Decode,
    {
        let ghost p = self.pos as int;
        let n = self.run_count(2)?;
        let mut v: Vec<(usize, usize)> = Vec::new();
        let mut i: usize = 0;
        while i < n
            invariant
                self.buf@ == old(self).buf@, self.buf@.len() <= usize::MAX, i <= n, p + 4 + 16 * n <= self.buf@.len(),
                self.pos == p + 4 + 16 * i,
                v@ =~= pairs_at(self.buf@, p).take(i as int),
                n == u32_at(self.buf@, p),
            decreases n - i,
        {
            let a = read_u64_le(self.buf, self.pos) as usize;
            let b = read_u64_le(self.buf, self.pos + 8) as usize;
            self.pos = self.pos + 16;
            v.push((a, b));
            i = i + 1;
            assert(v@ =~= pairs_at(self.buf@, p).take(i as int));
        }
        Ok(v)
    }

    /// `n` u32 ids (the caller has checked they are there).
    fn u32s(&mut self, n: usize) -> (v: Vec<u32>)
        requires old(self).ok(), old(self).pos + 4 * n <= old(self).buf@.len(),
        ensures
            final(self).same_buf(*old(self)),
            final(self).pos == old(self).pos + 4 * n,
            v@ == ids_at(old(self).buf@, old(self).pos as int, n as nat),
    {
        let ghost p0 = self.pos as int;
        let mut v: Vec<u32> = Vec::new();
        let mut i: usize = 0;
        while i < n
            invariant
                self.buf@ == old(self).buf@, self.buf@.len() <= usize::MAX, i <= n, p0 + 4 * n <= self.buf@.len(),
                self.pos == p0 + 4 * i,
                v@ == ids_at(self.buf@, p0, i as nat),
            decreases n - i,
        {
            let x = read_u32_le(self.buf, self.pos);
            self.pos = self.pos + 4;
            v.push(x);
            i = i + 1;
            assert(v@ =~= ids_at(self.buf@, p0, i as nat));
        }
        v
    }

    /// `n` bytes copied out (the caller has checked they are there).
    fn raw(&mut self, n: usize) -> (v: Vec<u8>)
        requires old(self).ok(), old(self).pos + n <= old(self).buf@.len(),
        ensures
            final(self).same_buf(*old(self)),
            final(self).pos == old(self).pos + n,
            v@ == old(self).buf@.subrange(old(self).pos as int, old(self).pos + n),
    {
        let ghost p0 = self.pos as int;
        let mut v: Vec<u8> = Vec::new();
        let mut i: usize = 0;
        while i < n
            invariant
                self.buf@ == old(self).buf@, self.buf@.len() <= usize::MAX, i <= n, p0 + n <= self.buf@.len(),
                self.pos == p0 + i,
                v@.len() == i,
                forall|k: int| 0 <= k < i ==> v@[k] == self.buf@[p0 + k],
            decreases n - i,
        {
            let x = self.buf[self.pos];
            v.push(x);
            self.pos = self.pos + 1;
            i = i + 1;
        }
        assert(v@ =~= self.buf@.subrange(p0, p0 + n));
        v
    }

    /// A dtype tag, a u64 byte count, and the payload (trailing partial element dropped).
    pub fn storage(&mut self) -> (r: Result<Storage, Error>)
        requires old(self).ok(),
        ensures
            final(self).same_buf(*old(self)),
            r is Ok <==> storage_len_at(old(self).buf@, old(self).pos as int) >= 0,
            r matches Ok(s) ==> s.spec_dtype() == dtype_of_tag(old(self).buf@[old(self).pos as int])
                && s.spec_bytes() == whole(storage_bytes_at(old(self).buf@, old(self).pos as int), s.spec_dtype())
                && final(self).pos == old(self).pos + storage_len_at(old(self).buf@, old(self).pos as int),
            r matches Err(e) ==> e.kind == ErrorKind::Decode,
    {
        let ghost p = self.pos as int;
        let ghost b = self.buf@;
        let dt = self.dtype()?;
        let n = self.u64()?;
        if !self.has(n) {
            return Err(decode_error());
        }
        let bytes = self.raw(n as usize);
        proof {
            assert(bytes@ == storage_bytes_at(b, p));
        }
        Ok(Storage::from_bytes(dt, bytes.as_slice()))
    }

    /// A counted UTF-8 string.
    pub fn str(&mut self) -> (r: Result<String, Error>)
        requires old(self).ok(),
        ensures
            final(self).same_buf(*old(self)),
            r is Ok <==> str_len_at(old(self).buf@, old(self).pos as int) >= 0,
            r matches Ok(s) ==> encode_utf8(s@) == str_bytes_at(old(self).buf@, old(self).pos as int)
                && final(self).pos == old(self).pos + str_len_at(old(self).buf@, old(self).pos as int),
            r matches Err(e) ==> e.kind == ErrorKind::Decode,
    {
        let n = self.u32()?;
        if !self.has(n as u64) {
            return Err(decode_error());
        }
        let bytes = self.raw(n as usize);
        match string_from_utf8(bytes) {
            Some(s) => Ok(s),
            None => Err(decode_error()),
        }
    }
}

/// The dtype a tag of at most 16 names.
pub fn dtype_from_tag(t: u8) -> (d: DType)
    ensures d == dtype_of_tag(t),
{
    if t == 0 { DType::BOOL }
    else if t == 1 { DType::U8 }
    else if t == 2 { DType::U16 }
    else if t == 3 { DType::U32 }
    else if t == 4 { DType::U64 }
    else if t == 5 { DType::I8 }
    else if t == 6 { DType::I16 }
    else if t == 7 { DType::I32 }
    else if t == 8 { DType::I64 }
    else if t == 9 { DType::F8E4M3 }
    else if t == 10 { DType::F8E5M2 }
    else if t == 11 { DType::F16 }
    else if t == 12 { DType::BF16 }
    else if t == 13 { DType::F32 }
    else if t == 14 { DType::F64 }
    else if t == 15 { DType::C64 }
    else { DType::C128 }
}

/// A constant's attributes: its storage, its shape, and a payload that fills the shape.
#[verifier::spinoff_prover]
fn read_const(r: &mut Reader) -> (res: Result<Op, Error>)
    requires old(r).ok(), old(r).pos >= 1, old(r).buf@[old(r).pos - 1] == 0,
    ensures
        final(r).same_buf(*old(r)),
        res is Ok <==> body_len_at(old(r).buf@, old(r).pos as int, 0) >= 0 && const_ok_at(old(r).buf@, old(r).pos - 1),
        res matches Ok(op) ==> op_tag(op) == 0 && attrs_at(old(r).buf@, old(r).pos as int, op)
            && final(r).pos == old(r).pos + body_len_at(old(r).buf@, old(r).pos as int, 0),
        res matches Err(e) ==> e.kind == ErrorKind::Decode,
{
    let ghost b = r.buf@;
    let ghost q = r.pos as int;
    let data = r.storage()?;
    let shape = r.vec_usize()?;
    proof {
        let n = u64_at(b, q + 1) as int;
        let sz = dtype_of_tag(b[q]).spec_size() as int;
        assert(data.spec_len() == n / sz) by {
            let kept = n - n % sz;
            assert(data.spec_bytes().len() == kept);
            vstd::arithmetic::div_mod::lemma_fundamental_div_mod(n, sz);
            assert(kept == sz * (n / sz));
            vstd::arithmetic::div_mod::lemma_div_multiples_vanish(n / sz, sz);
        }
    }
    let want = numel_checked(&shape);
    match want {
        Some(w) => {
            if data.len() != w {
                return Err(decode_error());
            }
        },
        None => {
            return Err(decode_error());
        },
    }
    Ok(Op::Const { data, shape })
}

/// Input (shape, dtype), Iota (shape, axis, dtype) or RandUniform (shape).
fn read_shaped(r: &mut Reader, tag: u8) -> (res: Result<Op, Error>)
    requires old(r).ok(), 1 <= tag <= 3,
    ensures
        final(r).same_buf(*old(r)),
        res is Ok <==> body_len_at(old(r).buf@, old(r).pos as int, tag) >= 0,
        res matches Ok(op) ==> op_tag(op) == tag && attrs_at(old(r).buf@, old(r).pos as int, op)
            && final(r).pos == old(r).pos + body_len_at(old(r).buf@, old(r).pos as int, tag),
        res matches Err(e) ==> e.kind == ErrorKind::Decode,
{
    let shape = r.vec_usize()?;
    if tag == 1 {
        let dtype = r.dtype()?;
        Ok(Op::Input { shape, dtype })
    } else if tag == 2 {
        let axis = r.usize()?;
        let dtype = r.dtype()?;
        Ok(Op::Iota { shape, axis, dtype })
    } else {
        Ok(Op::RandUniform { shape })
    }
}

/// Cast or Bitcast (a dtype).
fn read_cast(r: &mut Reader, tag: u8) -> (res: Result<Op, Error>)
    requires old(r).ok(), 4 <= tag <= 5,
    ensures
        final(r).same_buf(*old(r)),
        res is Ok <==> body_len_at(old(r).buf@, old(r).pos as int, tag) >= 0,
        res matches Ok(op) ==> op_tag(op) == tag && attrs_at(old(r).buf@, old(r).pos as int, op)
            && final(r).pos == old(r).pos + body_len_at(old(r).buf@, old(r).pos as int, tag),
        res matches Err(e) ==> e.kind == ErrorKind::Decode,
{
    let to = r.dtype()?;
    if tag == 4 { Ok(Op::Cast { to }) } else { Ok(Op::Bitcast { to }) }
}

/// The ops with no attributes, by tag.
fn plain_op(tag: u8) -> (op: Op)
    requires (6 <= tag <= 25) || (41 <= tag <= 44) || (46 <= tag <= 49),
    ensures op_tag(op) == tag, attrs_at(Seq::empty(), 0, op),
{
    match tag {
        6 => Op::Detach,
        7 => Op::Add,
        8 => Op::Mul,
        9 => Op::Max,
        10 => Op::Neg,
        11 => Op::IDiv,
        12 => Op::And,
        13 => Op::Or,
        14 => Op::Xor,
        15 => Op::Shl,
        16 => Op::Shr,
        17 => Op::CmpLt,
        18 => Op::CmpEq,
        19 => Op::Where,
        20 => Op::Recip,
        21 => Op::Sqrt,
        22 => Op::Exp2,
        23 => Op::Log2,
        24 => Op::Sin,
        25 => Op::Floor,
        41 => Op::Solve,
        42 => Op::Det,
        43 => Op::Cholesky,
        44 => Op::Eigh,
        46 => Op::Eigvals,
        47 => Op::Complex,
        48 => Op::Real,
        _ => Op::Imag,
    }
}

/// The ops whose first attribute is an axis.
#[verifier::spinoff_prover]
fn read_axis_op(r: &mut Reader, tag: u8) -> (res: Result<Op, Error>)
    requires old(r).ok(), (26 <= tag <= 31) || (50 <= tag <= 54),
    ensures
        final(r).same_buf(*old(r)),
        res is Ok <==> body_len_at(old(r).buf@, old(r).pos as int, tag) >= 0,
        res matches Ok(op) ==> op_tag(op) == tag && attrs_at(old(r).buf@, old(r).pos as int, op)
            && final(r).pos == old(r).pos + body_len_at(old(r).buf@, old(r).pos as int, tag),
        res matches Err(e) ==> e.kind == ErrorKind::Decode,
{
    let axis = r.usize()?;
    match tag {
        26 => Ok(Op::Sum { axis }),
        27 => Ok(Op::Prod { axis }),
        28 => Ok(Op::ReduceMax { axis }),
        29 => {
            let kind = r.argkind()?;
            Ok(Op::ArgReduce { axis, kind })
        },
        30 => Ok(Op::Softmax { axis }),
        31 => {
            let eps_bits = r.u32()?;
            Ok(Op::RmsNorm { axis, eps_bits })
        },
        50 => Ok(Op::Gather { axis }),
        51 => {
            let combine = r.scatter()?;
            Ok(Op::Scatter { axis, combine })
        },
        52 => Ok(Op::GatherAlong { axis }),
        53 => {
            let combine = r.scatter()?;
            Ok(Op::ScatterAlong { axis, combine })
        },
        _ => {
            let descending = r.bool()?;
            Ok(Op::Argsort { axis, descending })
        },
    }
}

/// Sdpa, Qr (a flag) and QuantMatmul (bits, group size, flag).
fn read_flag_op(r: &mut Reader, tag: u8) -> (res: Result<Op, Error>)
    requires old(r).ok(), tag == 32 || tag == 40 || tag == 45,
    ensures
        final(r).same_buf(*old(r)),
        res is Ok <==> body_len_at(old(r).buf@, old(r).pos as int, tag) >= 0,
        res matches Ok(op) ==> op_tag(op) == tag && attrs_at(old(r).buf@, old(r).pos as int, op)
            && final(r).pos == old(r).pos + body_len_at(old(r).buf@, old(r).pos as int, tag),
        res matches Err(e) ==> e.kind == ErrorKind::Decode,
{
    if tag == 32 {
        let causal = r.bool()?;
        Ok(Op::Sdpa { causal })
    } else if tag == 45 {
        let r_factor = r.bool()?;
        Ok(Op::Qr { r_factor })
    } else {
        let bits = r.u8()?;
        let group_size = r.usize()?;
        let symmetric = r.bool()?;
        Ok(Op::QuantMatmul { bits, group_size, symmetric })
    }
}

/// The ops whose attributes are counted lists.
#[verifier::spinoff_prover]
fn read_list_op(r: &mut Reader, tag: u8) -> (res: Result<Op, Error>)
    requires old(r).ok(), 33 <= tag <= 39,
    ensures
        final(r).same_buf(*old(r)),
        res is Ok <==> body_len_at(old(r).buf@, old(r).pos as int, tag) >= 0,
        res matches Ok(op) ==> op_tag(op) == tag && attrs_at(old(r).buf@, old(r).pos as int, op)
            && final(r).pos == old(r).pos + body_len_at(old(r).buf@, old(r).pos as int, tag),
        res matches Err(e) ==> e.kind == ErrorKind::Decode,
{
    match tag {
        33 => {
            let shape = r.vec_usize()?;
            Ok(Op::Reshape { shape })
        },
        34 => {
            let perm = r.vec_usize()?;
            Ok(Op::Permute { perm })
        },
        35 => {
            let shape = r.vec_usize()?;
            Ok(Op::Expand { shape })
        },
        36 => {
            let ranges = r.triples()?;
            Ok(Op::Slice { ranges })
        },
        37 => {
            let axes = r.vec_usize()?;
            Ok(Op::Flip { axes })
        },
        38 => {
            let pads = r.pairs()?;
            Ok(Op::Pad { pads })
        },
        _ => {
            let lhs_contract = r.vec_usize()?;
            let rhs_contract = r.vec_usize()?;
            let lhs_batch = r.vec_usize()?;
            let rhs_batch = r.vec_usize()?;
            Ok(Op::DotGeneral { lhs_contract, rhs_contract, lhs_batch, rhs_batch })
        },
    }
}

/// Read one op: its tag, then its attributes. Succeeds exactly on a well-formed op (a
/// known tag, every attribute present, a constant's payload filling its shape).
#[verifier::spinoff_prover]
pub fn read_op(r: &mut Reader) -> (res: Result<Op, Error>)
    requires old(r).ok(),
    ensures
        final(r).same_buf(*old(r)),
        res is Ok <==> op_len_at(old(r).buf@, old(r).pos as int) >= 0 && const_ok_at(old(r).buf@, old(r).pos as int),
        res matches Ok(op) ==> decodes_to(old(r).buf@, old(r).pos as int, op)
            && final(r).pos == old(r).pos + op_len_at(old(r).buf@, old(r).pos as int),
        res matches Err(e) ==> e.kind == ErrorKind::Decode,
{
    let tag = r.u8()?;
    if tag == 0 {
        read_const(r)
    } else if tag <= 3 {
        read_shaped(r, tag)
    } else if tag <= 5 {
        read_cast(r, tag)
    } else if tag <= 25 || (41 <= tag && tag <= 44) || (46 <= tag && tag <= 49) {
        Ok(plain_op(tag))
    } else if tag <= 31 || (50 <= tag && tag <= 54) {
        read_axis_op(r, tag)
    } else if tag == 32 || tag == 40 || tag == 45 {
        read_flag_op(r, tag)
    } else if tag <= 39 {
        read_list_op(r, tag)
    } else {
        Err(decode_error())
    }
}

/// The first `k` nodes of `g` are the ones the node section describes.
spec fn prefix_decodes(b: Seq<u8>, g: Graph, k: int) -> bool {
    forall|j: int| 0 <= j < k ==> {
        let p = #[trigger] node_off(b, j as nat);
        &&& node_len_at(b, p) >= 0
        &&& const_ok_at(b, p)
        &&& decodes_to(b, p, g.nodes@[j].op)
        &&& ids_v(g.nodes@[j].src@) == node_src_at(b, p)
    }
}

/// `g`'s first `k` nodes have the shapes and dtypes of every well-formed graph the node
/// section describes.
spec fn agrees(b: Seq<u8>, g: Graph, k: int) -> bool {
    forall|w: Graph| #[trigger] nodes_decode(b, w) && w.wf() ==> forall|j: int| 0 <= j < k ==>
        (#[trigger] g.nodes@[j]).shape@ == w.nodes@[j].shape@ && g.nodes@[j].dtype == w.nodes@[j].dtype
}

/// `n` node ids from raw ids.
fn to_ids(raw: &Vec<u32>) -> (v: Vec<NodeId>)
    ensures ids_v(v@) == raw@,
{
    let mut v: Vec<NodeId> = Vec::new();
    let mut i: usize = 0;
    while i < raw.len()
        invariant i <= raw@.len(), ids_v(v@) == raw@.take(i as int),
        decreases raw@.len() - i,
    {
        let ghost before = v@;
        v.push(NodeId(raw[i]));
        proof {
            assert(ids_v(v@) =~= ids_v(before).push(raw@[i as int]));
            assert(raw@.take(i + 1) =~= raw@.take(i as int).push(raw@[i as int]));
        }
        i = i + 1;
    }
    assert(raw@.take(raw@.len() as int) =~= raw@);
    v
}

/// Replay the `n` nodes of the node section, re-inferring every shape and dtype. Succeeds
/// exactly when the section describes a well-formed graph.
#[verifier::rlimit(60)]
fn read_nodes(r: &mut Reader, n: u32) -> (res: Result<Graph, Error>)
    requires old(r).ok(), old(r).pos == 9, header_ok(old(r).buf@), n == declared_nodes(old(r).buf@),
    ensures
        final(r).same_buf(*old(r)),
        res is Ok <==> exists|w: Graph| w.wf() && #[trigger] nodes_decode(old(r).buf@, w),
        res matches Ok(g) ==> g.wf() && nodes_decode(old(r).buf@, g) && final(r).pos == nodes_end(old(r).buf@),
        res matches Err(e) ==> e.kind == ErrorKind::Decode,
{
    let ghost b = r.buf@;
    let mut g = Graph::new();
    let mut k: u32 = 0;
    while k < n
        invariant
            r.ok(), r.buf@ == b, b == old(r).buf@, k <= n, n == declared_nodes(b),
            r.pos == node_off(b, (k as int) as nat),
            g.wf(), g.nodes@.len() == k,
            prefix_decodes(b, g, k as int),
            agrees(b, g, k as int),
        decreases n - k,
    {
        let ghost p = r.pos as int;
        let ghost gk = g;
        proof {
            assert forall|w: Graph| w.wf() && #[trigger] nodes_decode(b, w) implies {
                &&& node_len_at(b, p) >= 0
                &&& const_ok_at(b, p)
                &&& decodes_to(b, p, w.nodes@[k as int].op)
                &&& ids_v(w.nodes@[k as int].src@) == node_src_at(b, p)
            } by {
                lemma_nodes_decode_at(b, w, k as int);
            }
        }
        let op = read_op(r)?;
        let ghost q = r.pos as int;
        let sl = r.u32()?;
        if !r.has(4 * (sl as u64)) {
            return Err(decode_error());
        }
        let raw = r.u32s(sl as usize);
        let src = to_ids(&raw);
        proof {
            assert(node_len_at(b, p) >= 0);
            assert(node_src_at(b, p) == raw@);
        }
        if !g.check_push(&op, &src) {
            proof {
                assert forall|w: Graph| w.wf() && #[trigger] nodes_decode(b, w) implies false by {
                    lemma_nodes_decode_at(b, w, k as int);
                    let wop = w.nodes@[k as int].op;
                    lemma_decodes_functional(b, p, op, wop);
                    lemma_ids_v_inj(src@, w.nodes@[k as int].src@);
                    assert(node_wf(w.nodes@, k as int));
                    lemma_ins_agree(g.nodes@, w.nodes@, src@, k as int);
                    lemma_op_eq_derive(op, wop, ins_of(g.nodes@, src@));
                }
            }
            return Err(decode_error());
        }
        let ghost ins = ins_of(g.nodes@, src@);
        g.push(op, src);
        proof {
            assert forall|j: int| 0 <= j < k + 1 implies {
                let pj = #[trigger] node_off(b, j as nat);
                &&& node_len_at(b, pj) >= 0
                &&& const_ok_at(b, pj)
                &&& decodes_to(b, pj, g.nodes@[j].op)
                &&& ids_v(g.nodes@[j].src@) == node_src_at(b, pj)
            } by {
                if j < k {
                    assert(g.nodes@[j] == gk.nodes@[j]);
                }
            }
            assert forall|w: Graph| #[trigger] nodes_decode(b, w) && w.wf() implies forall|j: int| 0 <= j < k + 1 ==>
                (#[trigger] g.nodes@[j]).shape@ == w.nodes@[j].shape@ && g.nodes@[j].dtype == w.nodes@[j].dtype by {
                lemma_nodes_decode_at(b, w, k as int);
                let wop = w.nodes@[k as int].op;
                lemma_decodes_functional(b, p, op, wop);
                lemma_ids_v_inj(src@, w.nodes@[k as int].src@);
                assert(node_wf(w.nodes@, k as int));
                lemma_ins_agree(gk.nodes@, w.nodes@, src@, k as int);
                lemma_op_eq_derive(op, wop, ins);
                assert forall|j: int| 0 <= j < k + 1 implies
                    (#[trigger] g.nodes@[j]).shape@ == w.nodes@[j].shape@ && g.nodes@[j].dtype == w.nodes@[j].dtype by {
                    if j < k {
                        assert(g.nodes@[j] == gk.nodes@[j]);
                    }
                }
            }
        }
        k = k + 1;
    }
    proof {
        assert(nodes_decode(b, g));
    }
    Ok(g)
}

/// One input binding: node id, role byte (0 weight, 1 runtime), name.
fn read_binding(r: &mut Reader) -> (res: Result<InputBinding, Error>)
    requires old(r).ok(),
    ensures
        final(r).same_buf(*old(r)),
        res is Ok <==> binding_len_at(old(r).buf@, old(r).pos as int) >= 0,
        res matches Ok(x) ==> binding_decodes(old(r).buf@, old(r).pos as int, x)
            && final(r).pos == old(r).pos + binding_len_at(old(r).buf@, old(r).pos as int),
        res matches Err(e) ==> e.kind == ErrorKind::Decode,
{
    let node = r.u32()?;
    let t = r.tag(1)?;
    let role = if t == 0 { InputRole::Weight } else { InputRole::Runtime };
    let name = r.str()?;
    Ok(InputBinding { node: NodeId(node), role, name })
}

/// One entry: name, counted output ids, counted input bindings.
#[verifier::spinoff_prover]
fn read_entry(r: &mut Reader) -> (res: Result<Entry, Error>)
    requires old(r).ok(),
    ensures
        final(r).same_buf(*old(r)),
        res is Ok <==> entry_ok_at(old(r).buf@, old(r).pos as int),
        res matches Ok(e) ==> entry_decodes(old(r).buf@, old(r).pos as int, e)
            && final(r).pos == old(r).pos + entry_len_at(old(r).buf@, old(r).pos as int),
        res matches Err(e) ==> e.kind == ErrorKind::Decode,
{
    let ghost b = r.buf@;
    let ghost p = r.pos as int;
    let name = r.str()?;
    let no = r.u32()?;
    if !r.has(4 * (no as u64)) {
        return Err(decode_error());
    }
    let raw = r.u32s(no as usize);
    let outputs = to_ids(&raw);
    let ghost q = r.pos as int;
    assert(q == entry_inputs_at(b, p));
    let ni = r.u32()?;
    let mut inputs: Vec<InputBinding> = Vec::new();
    let mut j: u32 = 0;
    while j < ni
        invariant
            r.ok(), r.buf@ == b, b == old(r).buf@, p == old(r).pos, q == entry_inputs_at(b, p),
            j <= ni, ni == u32_at(b, q), q + 4 <= b.len(),
            r.pos == binding_off(b, q + 4, (j as int) as nat),
            inputs@.len() == j,
            forall|t: int| 0 <= t < j ==> binding_len_at(b, #[trigger] binding_off(b, q + 4, t as nat)) >= 0,
            forall|t: int| 0 <= t < j ==> binding_decodes(b, #[trigger] binding_off(b, q + 4, t as nat), inputs@[t]),
        decreases ni - j,
    {
        let xr = read_binding(r);
        let x = match xr {
            Ok(x) => x,
            Err(e) => {
                proof {
                    let jj = j as int;
                    assert(binding_len_at(b, binding_off(b, q + 4, jj as nat)) < 0);
                    assert(!entry_ok_at(b, p));
                }
                return Err(e);
            },
        };
        inputs.push(x);
        j = j + 1;
    }
    Ok(Entry { name, outputs, inputs })
}

/// The entry table: a u32 count, then each entry.
#[verifier::spinoff_prover]
fn read_entries(r: &mut Reader) -> (res: Result<Vec<Entry>, Error>)
    requires old(r).ok(),
    ensures
        final(r).same_buf(*old(r)),
        res is Ok <==> entries_ok(old(r).buf@, old(r).pos as int),
        res matches Ok(es) ==> entries_decode(old(r).buf@, old(r).pos as int, es@),
        res matches Err(e) ==> e.kind == ErrorKind::Decode,
{
    let ghost b = r.buf@;
    let ghost q = r.pos as int;
    let ne = r.u32()?;
    let mut es: Vec<Entry> = Vec::new();
    let mut k: u32 = 0;
    while k < ne
        invariant
            r.ok(), r.buf@ == b, b == old(r).buf@, q == old(r).pos, q + 4 <= b.len(),
            k <= ne, ne == u32_at(b, q),
            r.pos == entry_off(b, q + 4, (k as int) as nat),
            es@.len() == k,
            forall|t: int| 0 <= t < k ==> #[trigger] entry_ok_at(b, entry_off(b, q + 4, t as nat)),
            forall|t: int| 0 <= t < k ==> entry_decodes(b, #[trigger] entry_off(b, q + 4, t as nat), es@[t]),
        decreases ne - k,
    {
        let er = read_entry(r);
        let e = match er {
            Ok(e) => e,
            Err(err) => {
                proof {
                    let kk = k as int;
                    assert(!entry_ok_at(b, entry_off(b, q + 4, kk as nat)));
                    assert(!entries_ok(b, q));
                }
                return Err(err);
            },
        };
        es.push(e);
        k = k + 1;
    }
    Ok(es)
}

/// Rebuild a multi-entry blob: replay every node in id order (each shape and dtype
/// re-inferred), then read the entry table. Succeeds exactly on a well-formed blob: the
/// magic `KGPH`, version 2, a node section describing a well-formed graph, and a
/// well-formed entry table; the graph and entries returned are the ones it describes.
#[verifier::spinoff_prover]
pub fn deserialize_multi(bytes: &[u8]) -> (res: Result<MultiRunnable, Error>)
    ensures
        res is Ok <==> blob_ok(bytes@),
        res matches Ok(m) ==> m.graph.wf() && nodes_decode(bytes@, m.graph)
            && entries_decode(bytes@, nodes_end(bytes@), m.entries@),
        res matches Err(e) ==> e.kind == ErrorKind::Decode,
{
    let ghost b = bytes@;
    if bytes.len() < 9 || bytes[0] != 75 || bytes[1] != 71 || bytes[2] != 80 || bytes[3] != 72 || bytes[4] != 2 {
        proof {
            if header_ok(b) {
                assert(b.take(4)[0] == magic()[0] && b.take(4)[1] == magic()[1]);
                assert(b.take(4)[2] == magic()[2] && b.take(4)[3] == magic()[3]);
            }
        }
        return Err(decode_error());
    }
    proof {
        assert(b.take(4) =~= magic());
    }
    let mut r = Reader::new(bytes);
    r.pos = 5;
    let n = match r.u32() {
        Ok(n) => n,
        Err(e) => { return Err(e); },
    };
    let graph = read_nodes(&mut r, n)?;
    let entries = read_entries(&mut r)?;
    Ok(MultiRunnable { graph, entries })
}

/// Rebuild a blob's graph and its first entry's outputs and input bindings. Succeeds
/// exactly on a well-formed blob that has at least one entry.
#[verifier::spinoff_prover]
pub fn deserialize_graph(bytes: &[u8]) -> (res: Result<Runnable, Error>)
    ensures
        res is Ok <==> blob_ok(bytes@) && u32_at(bytes@, nodes_end(bytes@)) >= 1,
        res matches Ok(run) ==> run.graph.wf() && nodes_decode(bytes@, run.graph)
            && entry_io_decodes(bytes@, nodes_end(bytes@) + 4, run.outputs@, run.inputs@),
        res matches Err(e) ==> e.kind == ErrorKind::Decode,
{
    let m = deserialize_multi(bytes)?;
    let MultiRunnable { graph, entries } = m;
    let mut entries = entries;
    if entries.len() == 0 {
        return Err(decode_error());
    }
    let ghost es = entries@;
    let e = entries.swap_remove(0);
    proof {
        assert(e == es[0]);
        assert(entry_decodes(bytes@, entry_off(bytes@, nodes_end(bytes@) + 4, 0int as nat), es[0]));
    }
    let Entry { name: _, outputs, inputs } = e;
    Ok(Runnable { graph, outputs, inputs })
}

} // verus!
