//! Tensor contraction: the general dot product and the grouped-quantized matmul.

use vstd::prelude::*;
use crate::error::{Error, ErrorKind};
use crate::graph::{Graph, NodeId, Op};
use crate::graph::infer::{ins_of, dot_shape};
use crate::graph::shape::{numel, numel_checked};
use crate::graph::ops::base::slicing::{axes_ok, check_axes};

verus! {

/// Paired axes `l` of `a` and `r` of `b` have equal sizes.
pub open spec fn dims_match(a: Seq<usize>, b: Seq<usize>, l: Seq<usize>, r: Seq<usize>) -> bool {
    forall|i: int| 0 <= i < l.len() ==> a[#[trigger] l[i] as int] == b[r[i] as int]
}

/// The axes of a `dot_general` are consistent with the operand shapes `sa`, `sb`.
pub open spec fn dot_ok(
    sa: Seq<usize>, sb: Seq<usize>, lc: Seq<usize>, rc: Seq<usize>, lb: Seq<usize>, rb: Seq<usize>,
) -> bool {
    &&& lc.len() == rc.len()
    &&& lb.len() == rb.len()
    &&& axes_ok(lb + lc, sa.len())
    &&& axes_ok(rb + rc, sb.len())
    &&& dims_match(sa, sb, lb, rb)
    &&& dims_match(sa, sb, lc, rc)
}

/// Whether paired axes have equal sizes (all axes in range).
fn check_dims(a: &Vec<usize>, b: &Vec<usize>, l: &Vec<usize>, r: &Vec<usize>) -> (ok: bool)
    requires
        l@.len() == r@.len(),
        forall|i: int| 0 <= i < l@.len() ==> (#[trigger] l@[i]) < a@.len() && r@[i] < b@.len(),
    ensures ok == dims_match(a@, b@, l@, r@),
{
    let mut i: usize = 0;
    while i < l.len()
        invariant
            i <= l@.len(), l@.len() == r@.len(),
            forall|k: int| 0 <= k < l@.len() ==> (#[trigger] l@[k]) < a@.len() && r@[k] < b@.len(),
            forall|k: int| 0 <= k < i ==> a@[#[trigger] l@[k] as int] == b@[r@[k] as int],
        decreases l@.len() - i,
    {
        assert(l@[i as int] < a@.len());
        if a[l[i]] != b[r[i]] {
            return false;
        }
        i = i + 1;
    }
    true
}

fn concat2(x: &Vec<usize>, y: &Vec<usize>) -> (r: Vec<usize>)
    ensures r@ == x@ + y@,
{
    let mut r = crate::graph::op::copy_vec(x);
    crate::graph::derive::append_vec(&mut r, y);
    r
}

impl Graph {
    /// General dot product: contract `lhs_contract` of `a` with `rhs_contract` of `b`, batch
    /// over the paired batch axes. Output: batch dims, then `a`'s free dims, then `b`'s.
    pub fn dot_general(
        &mut self,
        a: NodeId,
        b: NodeId,
        lhs_contract: Vec<usize>,
        rhs_contract: Vec<usize>,
        lhs_batch: Vec<usize>,
        rhs_batch: Vec<usize>,
    ) -> (r: Result<NodeId, Error>)
        requires old(self).wf(), old(self).room(1), old(self).valid(a), old(self).valid(b),
        ensures
            final(self).wf(),
            r is Ok <==> old(self).dt(a) == old(self).dt(b) && old(self).dt(a).spec_is_arith()
                && dot_ok(old(self).sh(a), old(self).sh(b), lhs_contract@, rhs_contract@, lhs_batch@, rhs_batch@),
            r matches Ok(id) ==> final(self).valid(id) && final(self).grew(*old(self), 1)
                && final(self).sh(id) == dot_shape(old(self).sh(a), old(self).sh(b), lhs_contract@, rhs_contract@, lhs_batch@, rhs_batch@)
                && final(self).dt(id) == old(self).dt(a),
            r is Err ==> *final(self) == *old(self),
            r matches Ok(id) ==> final(self).srcs(id) == seq![a, b]
                && (final(self).opn(id) matches Op::DotGeneral { lhs_contract: c1, rhs_contract: c2, lhs_batch: b1, rhs_batch: b2 }
                && c1@ == lhs_contract@ && c2@ == rhs_contract@ && b1@ == lhs_batch@ && b2@ == rhs_batch@),
    {
        self.same_dtype("dot_general", a, b)?;
        self.require("dot_general", a, self.dtype(a).is_arith())?;
        if lhs_contract.len() != rhs_contract.len() || lhs_batch.len() != rhs_batch.len() {
            return Err(Error::new("dot_general", ErrorKind::Invalid));
        }
        let sa = &self.nodes[a.0 as usize].shape;
        let sb = &self.nodes[b.0 as usize].shape;
        let a_axes = concat2(&lhs_batch, &lhs_contract);
        let b_axes = concat2(&rhs_batch, &rhs_contract);
        if !check_axes(&a_axes, sa.len()) || !check_axes(&b_axes, sb.len()) {
            return Err(Error::new("dot_general", ErrorKind::Invalid));
        }
        proof {
            assert forall|i: int| 0 <= i < lhs_batch@.len() implies (#[trigger] lhs_batch@[i]) < sa@.len() && rhs_batch@[i] < sb@.len() by {
                assert(a_axes@[i] == lhs_batch@[i] && b_axes@[i] == rhs_batch@[i]);
            }
            assert forall|i: int| 0 <= i < lhs_contract@.len() implies (#[trigger] lhs_contract@[i]) < sa@.len() && rhs_contract@[i] < sb@.len() by {
                assert(a_axes@[lhs_batch@.len() + i] == lhs_contract@[i] && b_axes@[rhs_batch@.len() + i] == rhs_contract@[i]);
            }
        }
        if !check_dims(sa, sb, &lhs_batch, &rhs_batch) || !check_dims(sa, sb, &lhs_contract, &rhs_contract) {
            return Err(Error::new("dot_general", ErrorKind::ShapeMismatch));
        }
        let v = vec![a, b];
        assert(v@ =~= seq![a, b]);
        assert(ins_of(self.nodes@, v@)[0] == (self.sh(a), self.dt(a)));
        assert(ins_of(self.nodes@, v@)[1] == (self.sh(b), self.dt(b)));
        assert(sa@ == self.sh(a) && sb@ == self.sh(b));
        assert forall|i: int| 0 <= i < lhs_batch@.len() implies #[trigger] lhs_batch@[i] < ins_of(self.nodes@, v@)[0].0.len() by {
            assert(a_axes@[i] == lhs_batch@[i]);
        }
        assert forall|i: int| 0 <= i < rhs_batch@.len() implies #[trigger] rhs_batch@[i] < ins_of(self.nodes@, v@)[1].0.len() by {
            assert(b_axes@[i] == rhs_batch@[i]);
        }
        Ok(self.push(Op::DotGeneral { lhs_contract, rhs_contract, lhs_batch, rhs_batch }, v))
    }

    /// Matmul of `act` [M, K] with grouped-quantized `qweight` [N, K*bits/8]: `bits` in
    /// {2, 4, 8}, `group_size` a nonzero divisor of K, `scales` (and `mins` when the scheme is
    /// asymmetric) holding N*K/group_size entries. Output [M, N].
    pub fn quant_matmul(
        &mut self,
        act: NodeId,
        qweight: NodeId,
        scales: NodeId,
        mins: Option<NodeId>,
        bits: u8,
        group_size: usize,
    ) -> (r: Result<NodeId, Error>)
        requires
            old(self).wf(), old(self).room(1), old(self).valid(act), old(self).valid(qweight), old(self).valid(scales),
            mins matches Some(m) ==> old(self).valid(m),
            old(self).sh(act).len() == 2 && old(self).sh(qweight).len() == 2 ==> {
                let k = old(self).sh(act)[1];
                &&& old(self).sh(qweight)[1] * 8 <= usize::MAX
                &&& k * 8 <= usize::MAX
                &&& (group_size > 0 ==> old(self).sh(qweight)[0] * (k / group_size) <= usize::MAX)
            },
            numel(old(self).sh(scales)) <= usize::MAX,
            mins matches Some(m) ==> numel(old(self).sh(m)) <= usize::MAX,
        ensures
            final(self).wf(),
            r is Ok <==> {
                let sa = old(self).sh(act);
                let sq = old(self).sh(qweight);
                &&& sa.len() == 2 && sq.len() == 2
                &&& (bits == 2 || bits == 4 || bits == 8)
                &&& group_size > 0 && sa[1] % group_size == 0
                &&& sq[1] * 8 == sa[1] * bits
                &&& numel(old(self).sh(scales)) == sq[0] * (sa[1] / group_size)
                &&& (mins matches Some(m) ==> numel(old(self).sh(m)) == sq[0] * (sa[1] / group_size))
            },
            r matches Ok(id) ==> final(self).valid(id) && final(self).grew(*old(self), 1)
                && final(self).opn(id) == (Op::QuantMatmul { bits, group_size, symmetric: mins is None })
                && final(self).sh(id) == seq![old(self).sh(act)[0], old(self).sh(qweight)[0]]
                && final(self).dt(id) == old(self).dt(act),
            r is Err ==> *final(self) == *old(self),
            r matches Ok(id) ==> final(self).srcs(id) == (match mins {
                Some(m) => seq![act, qweight, scales, m],
                None => seq![act, qweight, scales],
            }),
    {
        let ra = self.rank(act);
        let rq = self.rank(qweight);
        if ra != 2 || rq != 2 {
            return Err(Error::new("quant_matmul", ErrorKind::Invalid));
        }
        let k = self.nodes[act.0 as usize].shape[1];
        let n = self.nodes[qweight.0 as usize].shape[0];
        let q1 = self.nodes[qweight.0 as usize].shape[1];
        if !(bits == 2 || bits == 4 || bits == 8) {
            return Err(Error::new("quant_matmul", ErrorKind::Invalid));
        }
        if group_size == 0 || k % group_size != 0 {
            return Err(Error::new("quant_matmul", ErrorKind::Invalid));
        }
        assert(k * bits <= k * 8) by (nonlinear_arith) requires bits <= 8;
        if q1 * 8 != k * (bits as usize) {
            return Err(Error::new("quant_matmul", ErrorKind::Invalid));
        }
        let want = n * (k / group_size);
        let ns = numel_checked(&self.nodes[scales.0 as usize].shape);
        if ns != Some(want) {
            return Err(Error::new("quant_matmul", ErrorKind::Invalid));
        }
        let mut src = vec![act, qweight, scales];
        match mins {
            Some(m) => {
                let nm = numel_checked(&self.nodes[m.0 as usize].shape);
                if nm != Some(want) {
                    return Err(Error::new("quant_matmul", ErrorKind::Invalid));
                }
                src.push(m);
            },
            None => {},
        }
        let ghost ins = ins_of(self.nodes@, src@);
        assert(src@[0] == act && src@[1] == qweight);
        assert(src@ =~= (match mins { Some(m) => seq![act, qweight, scales, m], None => seq![act, qweight, scales] }));
        assert(ins[0] == (self.sh(act), self.dt(act)) && ins[1].0 == self.sh(qweight));
        Ok(self.push(Op::QuantMatmul { bits, group_size, symmetric: mins.is_none() }, src))
    }
}

} // verus!
