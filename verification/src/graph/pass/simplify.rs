//! Graph rewrite pass: local algebraic and movement simplification plus common
//! subexpression elimination, applied bottom-up (sources before consumers, so rewrites
//! cascade). New nodes are appended to the arena; the old ones stay but drop out of the new
//! root's reachable set. Every rewrite replaces a node by one of the same shape and dtype.

use vstd::prelude::*;
use crate::bytes::{read_u32_le, from_le_u32};
use crate::dtype::DType;
use crate::graph::{Graph, NodeId, Op};
use crate::graph::op::op_eq;
use crate::graph::infer::{ins_of, node_wf, srcs_below, lemma_op_eq_derive, lemma_ins_prefix};
use crate::graph::inspect::{reachable, node_count, lemma_reached_valid, lemma_reach_src, lemma_root_reaches, reaches, ascending};
use crate::graph::check::shapes_equal;

verus! {

/// Equality of two ops by value (vector and payload attributes compared by contents).
pub fn same_op(a: &Op, b: &Op) -> (r: bool)
    ensures r == op_eq(*a, *b),
{
    match (a, b) {
        (Op::Const { data: d1, shape: s1 }, Op::Const { data: d2, shape: s2 }) =>
            d1.dtype() == d2.dtype() && same_bytes(d1.bytes(), d2.bytes()) && shapes_equal(s1, s2),
        (Op::Input { shape: s1, dtype: t1 }, Op::Input { shape: s2, dtype: t2 }) => shapes_equal(s1, s2) && *t1 == *t2,
        (Op::Iota { shape: s1, axis: a1, dtype: t1 }, Op::Iota { shape: s2, axis: a2, dtype: t2 }) =>
            shapes_equal(s1, s2) && *a1 == *a2 && *t1 == *t2,
        (Op::RandUniform { shape: s1 }, Op::RandUniform { shape: s2 }) => shapes_equal(s1, s2),
        (Op::Reshape { shape: s1 }, Op::Reshape { shape: s2 }) => shapes_equal(s1, s2),
        (Op::Permute { perm: s1 }, Op::Permute { perm: s2 }) => shapes_equal(s1, s2),
        (Op::Expand { shape: s1 }, Op::Expand { shape: s2 }) => shapes_equal(s1, s2),
        (Op::Flip { axes: s1 }, Op::Flip { axes: s2 }) => shapes_equal(s1, s2),
        (Op::Slice { ranges: s1 }, Op::Slice { ranges: s2 }) => same_triples(s1, s2),
        (Op::Pad { pads: s1 }, Op::Pad { pads: s2 }) => same_pairs(s1, s2),
        (
            Op::DotGeneral { lhs_contract: a1, rhs_contract: b1, lhs_batch: c1, rhs_batch: e1 },
            Op::DotGeneral { lhs_contract: a2, rhs_contract: b2, lhs_batch: c2, rhs_batch: e2 },
        ) => shapes_equal(a1, a2) && shapes_equal(b1, b2) && shapes_equal(c1, c2) && shapes_equal(e1, e2),
        (Op::Cast { to: x }, Op::Cast { to: y }) => *x == *y,
        (Op::Bitcast { to: x }, Op::Bitcast { to: y }) => *x == *y,
        (Op::Detach, Op::Detach) | (Op::Add, Op::Add) | (Op::Mul, Op::Mul) | (Op::Max, Op::Max) | (Op::Neg, Op::Neg)
        | (Op::IDiv, Op::IDiv) | (Op::And, Op::And) | (Op::Or, Op::Or) | (Op::Xor, Op::Xor) | (Op::Shl, Op::Shl)
        | (Op::Shr, Op::Shr) | (Op::CmpLt, Op::CmpLt) | (Op::CmpEq, Op::CmpEq) | (Op::Where, Op::Where)
        | (Op::Recip, Op::Recip) | (Op::Sqrt, Op::Sqrt) | (Op::Exp2, Op::Exp2) | (Op::Log2, Op::Log2)
        | (Op::Sin, Op::Sin) | (Op::Floor, Op::Floor) | (Op::Solve, Op::Solve) | (Op::Det, Op::Det)
        | (Op::Cholesky, Op::Cholesky) | (Op::Eigh, Op::Eigh) | (Op::Eigvals, Op::Eigvals)
        | (Op::Complex, Op::Complex) | (Op::Real, Op::Real) | (Op::Imag, Op::Imag) => true,
        (Op::Sum { axis: x }, Op::Sum { axis: y }) => *x == *y,
        (Op::Prod { axis: x }, Op::Prod { axis: y }) => *x == *y,
        (Op::ReduceMax { axis: x }, Op::ReduceMax { axis: y }) => *x == *y,
        (Op::Softmax { axis: x }, Op::Softmax { axis: y }) => *x == *y,
        (Op::Gather { axis: x }, Op::Gather { axis: y }) => *x == *y,
        (Op::GatherAlong { axis: x }, Op::GatherAlong { axis: y }) => *x == *y,
        (Op::ArgReduce { axis: x, kind: k1 }, Op::ArgReduce { axis: y, kind: k2 }) => *x == *y && *k1 == *k2,
        (Op::RmsNorm { axis: x, eps_bits: e1 }, Op::RmsNorm { axis: y, eps_bits: e2 }) => *x == *y && *e1 == *e2,
        (Op::Sdpa { causal: x }, Op::Sdpa { causal: y }) => *x == *y,
        (Op::Qr { r_factor: x }, Op::Qr { r_factor: y }) => *x == *y,
        (Op::QuantMatmul { bits: b1, group_size: g1, symmetric: s1 }, Op::QuantMatmul { bits: b2, group_size: g2, symmetric: s2 }) =>
            *b1 == *b2 && *g1 == *g2 && *s1 == *s2,
        (Op::Scatter { axis: x, combine: c1 }, Op::Scatter { axis: y, combine: c2 }) => *x == *y && *c1 == *c2,
        (Op::ScatterAlong { axis: x, combine: c1 }, Op::ScatterAlong { axis: y, combine: c2 }) => *x == *y && *c1 == *c2,
        (Op::Argsort { axis: x, descending: d1 }, Op::Argsort { axis: y, descending: d2 }) => *x == *y && *d1 == *d2,
        _ => false,
    }
}

fn same_bytes(a: &[u8], b: &[u8]) -> (r: bool)
    ensures r == (a@ == b@),
{
    if a.len() != b.len() {
        return false;
    }
    let mut i: usize = 0;
    while i < a.len()
        invariant a@.len() == b@.len(), i <= a@.len(), forall|j: int| 0 <= j < i ==> a@[j] == b@[j],
        decreases a@.len() - i,
    {
        if a[i] != b[i] {
            return false;
        }
        i = i + 1;
    }
    assert(a@ =~= b@);
    true
}

fn same_triples(a: &Vec<(usize, usize, usize)>, b: &Vec<(usize, usize, usize)>) -> (r: bool)
    ensures r == (a@ == b@),
{
    if a.len() != b.len() {
        return false;
    }
    let mut i: usize = 0;
    while i < a.len()
        invariant a@.len() == b@.len(), i <= a@.len(), forall|j: int| 0 <= j < i ==> a@[j] == b@[j],
        decreases a@.len() - i,
    {
        let (x0, x1, x2) = a[i];
        let (y0, y1, y2) = b[i];
        if x0 != y0 || x1 != y1 || x2 != y2 {
            return false;
        }
        i = i + 1;
    }
    assert(a@ =~= b@);
    true
}

fn same_pairs(a: &Vec<(usize, usize)>, b: &Vec<(usize, usize)>) -> (r: bool)
    ensures r == (a@ == b@),
{
    if a.len() != b.len() {
        return false;
    }
    let mut i: usize = 0;
    while i < a.len()
        invariant a@.len() == b@.len(), i <= a@.len(), forall|j: int| 0 <= j < i ==> a@[j] == b@[j],
        decreases a@.len() - i,
    {
        let (x0, x1) = a[i];
        let (y0, y1) = b[i];
        if x0 != y0 || x1 != y1 {
            return false;
        }
        i = i + 1;
    }
    assert(a@ =~= b@);
    true
}

fn same_ids(a: &Vec<NodeId>, b: &Vec<NodeId>) -> (r: bool)
    ensures r == (a@ == b@),
{
    if a.len() != b.len() {
        return false;
    }
    let mut i: usize = 0;
    while i < a.len()
        invariant a@.len() == b@.len(), i <= a@.len(), forall|j: int| 0 <= j < i ==> a@[j] == b@[j],
        decreases a@.len() - i,
    {
        if a[i].0 != b[i].0 {
            return false;
        }
        i = i + 1;
    }
    assert(a@ =~= b@);
    true
}

/// Node `id` of `g` is an F32 constant whose every element has bit pattern `x` or `y`.
pub open spec fn f32_all_of(g: Graph, id: NodeId, x: u32, y: u32) -> bool {
    g.opn(id) matches Op::Const { data, .. } && data.spec_dtype() == DType::F32
        && forall|i: int| 0 <= i < data.spec_bytes().len() / 4 ==> {
            let v = #[trigger] from_le_u32(data.spec_bytes().subrange(4 * i, 4 * i + 4));
            v == x || v == y
        }
}

/// Node `id` is an F32 constant whose every element has bit pattern `x` or `y`.
#[verifier::loop_isolation(false)]
fn const_all(g: &Graph, id: NodeId, x: u32, y: u32) -> (r: bool)
    requires g.valid(id),
    ensures r == f32_all_of(*g, id, x, y),
{
    match &g.nodes[id.0 as usize].op {
        Op::Const { data, .. } => {
            if data.dtype() != DType::F32 {
                return false;
            }
            let b = data.bytes();
            let bl = b.len();
            let n = bl / 4;
            let mut i: usize = 0;
            while i < n
                invariant
                    i <= n, n * 4 <= bl, bl == b@.len(), n == b@.len() / 4, b@ == data.spec_bytes(),
                    forall|j: int| 0 <= j < i ==> {
                        let v = #[trigger] from_le_u32(b@.subrange(4 * j, 4 * j + 4));
                        v == x || v == y
                    },
                decreases n - i,
            {
                let v = read_u32_le(b, 4 * i);
                if v != x && v != y {
                    assert(from_le_u32(b@.subrange(4 * i as int, 4 * i as int + 4)) == v);
                    return false;
                }
                i = i + 1;
            }
            true
        },
        _ => false,
    }
}

/// `r` may stand for node `id`: a node with the same shape and dtype.
pub open spec fn stands_for(g: Graph, r: NodeId, old: Graph, id: NodeId) -> bool {
    &&& g.valid(r)
    &&& g.sh(r) == old.sh(id)
    &&& g.dt(r) == old.dt(id)
}

/// `Some(r)` when `r` has `id`'s shape and dtype, else `None`.
pub open spec fn guarded(g: Graph, r: NodeId, id: NodeId) -> Option<NodeId> {
    if g.sh(r) == g.sh(id) && g.dt(r) == g.dt(id) { Some(r) } else { None }
}

/// `r` if it has `id`'s shape and dtype.
fn guard(g: &Graph, r: NodeId, id: NodeId) -> (o: Option<NodeId>)
    requires g.valid(r), g.valid(id),
    ensures o == guarded(*g, r, id),
{
    if shapes_equal(&g.nodes[r.0 as usize].shape, &g.nodes[id.0 as usize].shape)
        && g.nodes[r.0 as usize].dtype == g.nodes[id.0 as usize].dtype {
        Some(r)
    } else {
        None
    }
}

/// The first source of node `s`, if it has one.
fn first_src(g: &Graph, s: NodeId) -> (r: Option<NodeId>)
    requires g.wf(), g.valid(s),
    ensures
        r == (if g.srcs(s).len() >= 1 { Some(g.srcs(s)[0]) } else { None::<NodeId> }),
        r matches Some(x) ==> g.valid(x),
{
    proof { assert(node_wf(g.nodes@, s.0 as int)); }
    let n = &g.nodes[s.0 as usize];
    if n.src.len() >= 1 {
        assert(n.src@[0].0 < s.0);
        Some(n.src[0])
    } else {
        None
    }
}

/// `perm` is `0, 1, .., len - 1`.
pub open spec fn identity_perm(perm: Seq<usize>) -> bool {
    forall|i: int| 0 <= i < perm.len() ==> #[trigger] perm[i] == i
}

/// `perm` is `0, 1, .., len - 1`.
fn is_identity_perm(perm: &Vec<usize>) -> (b: bool)
    ensures b == identity_perm(perm@),
{
    let mut i: usize = 0;
    while i < perm.len()
        invariant i <= perm@.len(), forall|j: int| 0 <= j < i ==> #[trigger] perm@[j] == j,
        decreases perm@.len() - i,
    {
        if perm[i] != i {
            return false;
        }
        i = i + 1;
    }
    true
}

/// `inner[perm[i]]` for each `i`.
pub open spec fn composed(perm: Seq<usize>, inner: Seq<usize>) -> Seq<usize> {
    perm.map_values(|p: usize| inner[p as int])
}

/// Every `perm[i]` indexes `inner`.
pub open spec fn indexes(perm: Seq<usize>, n: nat) -> bool {
    forall|i: int| 0 <= i < perm.len() ==> #[trigger] perm[i] < n
}

/// What `rule` answers for node `id` (op `op` over `src`) in `g`: a double negation or
/// reciprocal gives the inner operand; a multiplication by an all-ones F32 constant or an
/// addition of an all-zeros one (either sign) gives the other operand; a reshape to the
/// operand's own shape or an identity permutation gives the operand; a reshape of a reshape,
/// or a permutation of a permutation, gives one fresh node over the inner operand (when the
/// arena has room and the composed permutation indexes it). Each answer only when it keeps
/// `id`'s shape and dtype.
pub open spec fn rule_out(g: Graph, op: Op, src: Seq<NodeId>, id: NodeId) -> Option<NodeId> {
    if src.len() == 0 {
        None
    } else {
        let s0 = src[0];
        let s1 = if src.len() >= 2 { src[1] } else { s0 };
        let fresh = NodeId(g.nodes@.len() as u32);
        match op {
            Op::Neg => if g.opn(s0) is Neg && g.srcs(s0).len() >= 1 { guarded(g, g.srcs(s0)[0], id) } else { None },
            Op::Recip => if g.opn(s0) is Recip && g.srcs(s0).len() >= 1 { guarded(g, g.srcs(s0)[0], id) } else { None },
            Op::Mul => if f32_all_of(g, s1, 0x3f80_0000, 0x3f80_0000) { guarded(g, s0, id) }
                else if f32_all_of(g, s0, 0x3f80_0000, 0x3f80_0000) { guarded(g, s1, id) } else { None },
            Op::Add => if f32_all_of(g, s1, 0x0000_0000, 0x8000_0000) { guarded(g, s0, id) }
                else if f32_all_of(g, s0, 0x0000_0000, 0x8000_0000) { guarded(g, s1, id) } else { None },
            Op::Reshape { shape } =>
                if g.sh(s0) == shape@ { guarded(g, s0, id) }
                else if g.opn(s0) is Reshape && g.srcs(s0).len() >= 1 && g.room(1) {
                    if shape@ == g.sh(id) && g.dt(g.srcs(s0)[0]) == g.dt(id) { Some(fresh) } else { None }
                } else { None },
            Op::Permute { perm } =>
                if identity_perm(perm@) { guarded(g, s0, id) }
                else if g.opn(s0) is Permute && g.srcs(s0).len() >= 1 && g.room(1) && ({
                    let inner_perm = g.opn(s0)->perm@;
                    let inner = g.srcs(s0)[0];
                    indexes(perm@, inner_perm.len()) && indexes(composed(perm@, inner_perm), g.sh(inner).len())
                }) {
                    let c = composed(perm@, g.opn(s0)->perm@);
                    let inner = g.srcs(s0)[0];
                    if c.map_values(|q: usize| g.sh(inner)[q as int]) == g.sh(id) && g.dt(inner) == g.dt(id) {
                        Some(fresh)
                    } else { None }
                } else { None },
            _ => None,
        }
    }
}

/// One local, value-preserving rewrite of node `id` (op `op` over the new sources `src`);
/// `Some(r)` replaces the node by `r`, a node of the same shape and dtype.
#[verifier::loop_isolation(false)]
fn rule(g: &mut Graph, op: &Op, src: &Vec<NodeId>, id: NodeId) -> (res: Option<NodeId>)
    requires
        old(g).wf(), old(g).valid(id), old(g).all_valid(src@),
    ensures
        final(g).wf(), final(g).extends(*old(g)), final(g).nodes@.len() <= old(g).nodes@.len() + 1,
        res == rule_out(*old(g), *op, src@, id),
        res matches Some(r) ==> stands_for(*final(g), r, *old(g), id),
        arith_op(*op) ==> *final(g) == *old(g),
{
    if src.len() == 0 {
        return None;
    }
    let s0 = src[0];
    proof { assert(g.valid(src@[0])); }
    let s1 = if src.len() >= 2 { proof { assert(g.valid(src@[1])); } src[1] } else { s0 };
    match op {
        Op::Neg | Op::Recip => {
            let inner_is_same = match (&g.nodes[s0.0 as usize].op, op) {
                (Op::Neg, Op::Neg) | (Op::Recip, Op::Recip) => true,
                _ => false,
            };
            if inner_is_same {
                match first_src(g, s0) {
                    Some(x) => guard(g, x, id),
                    None => None,
                }
            } else {
                None
            }
        },
        Op::Mul => {
            if const_all(g, s1, 0x3f80_0000, 0x3f80_0000) {
                guard(g, s0, id)
            } else if const_all(g, s0, 0x3f80_0000, 0x3f80_0000) {
                guard(g, s1, id)
            } else {
                None
            }
        },
        Op::Add => {
            if const_all(g, s1, 0x0000_0000, 0x8000_0000) {
                guard(g, s0, id)
            } else if const_all(g, s0, 0x0000_0000, 0x8000_0000) {
                guard(g, s1, id)
            } else {
                None
            }
        },
        Op::Reshape { shape } => {
            if shapes_equal(&g.nodes[s0.0 as usize].shape, shape) {
                return guard(g, s0, id);
            }
            let is_reshape = match &g.nodes[s0.0 as usize].op {
                Op::Reshape { .. } => true,
                _ => false,
            };
            if !is_reshape {
                return None;
            }
            let inner = match first_src(g, s0) {
                Some(x) => x,
                None => { return None; },
            };
            let ghost g0 = *g;
            let new_shape = crate::graph::op::copy_vec(shape);
            let ghost nop = Op::Reshape { shape: new_shape };
            proof {
                assert(srcs_below(seq![inner], g0.nodes@.len() as int));
                assert(ins_of(g0.nodes@, seq![inner])[0] == (g0.sh(inner), g0.dt(inner)));
            }
            let v = vec![inner];
            assert(v@ =~= seq![inner]);
            match g.try_push(Op::Reshape { shape: new_shape }, v) {
                Some(r) => {
                    proof { assert(g.extends(g0)); }
                    if r.0 as usize >= g.nodes.len() || id.0 as usize >= g.nodes.len() {
                        return None;
                    }
                    assert(g.sh(r) == shape@ && g.dt(r) == g0.dt(inner));
                    assert(r == NodeId(g0.nodes@.len() as u32));
                    assert(g.sh(id) == g0.sh(id) && g.dt(id) == g0.dt(id));
                    guard(g, r, id)
                },
                None => None,
            }
        },
        Op::Permute { perm } => {
            if is_identity_perm(perm) {
                return guard(g, s0, id);
            }
            let (inner_perm, inner) = match &g.nodes[s0.0 as usize].op {
                Op::Permute { perm: p } => {
                    match first_src(g, s0) {
                        Some(x) => (crate::graph::op::copy_vec(p), x),
                        None => { return None; },
                    }
                },
                _ => { return None; },
            };
            assert(inner_perm@ == g.opn(s0)->perm@);
            let mut composed_v: Vec<usize> = Vec::new();
            let mut i: usize = 0;
            while i < perm.len()
                invariant
                    i <= perm@.len(),
                    indexes(perm@.take(i as int), inner_perm@.len()),
                    composed_v@ == composed(perm@.take(i as int), inner_perm@),
                decreases perm@.len() - i,
            {
                if perm[i] >= inner_perm.len() {
                    assert(!indexes(perm@, inner_perm@.len())) by {
                        assert(!(perm@[i as int] < inner_perm@.len()));
                    }
                    return None;
                }
                composed_v.push(inner_perm[perm[i]]);
                i = i + 1;
                assert(perm@.take(i as int).drop_last() =~= perm@.take(i - 1));
                assert(composed_v@ =~= composed(perm@.take(i as int), inner_perm@));
                assert forall|j: int| 0 <= j < i implies #[trigger] perm@.take(i as int)[j] < inner_perm@.len() by {
                    if j < i - 1 {
                        assert(perm@.take(i as int)[j] == perm@.take(i - 1)[j]);
                    }
                }
            }
            assert(perm@.take(perm@.len() as int) =~= perm@);
            let ghost g0 = *g;
            let ghost c = composed_v@;
            proof {
                assert(srcs_below(seq![inner], g0.nodes@.len() as int));
                assert(ins_of(g0.nodes@, seq![inner])[0] == (g0.sh(inner), g0.dt(inner)));
            }
            let v = vec![inner];
            assert(v@ =~= seq![inner]);
            match g.try_push(Op::Permute { perm: composed_v }, v) {
                Some(r) => {
                    if r.0 as usize >= g.nodes.len() || id.0 as usize >= g.nodes.len() {
                        return None;
                    }
                    assert(g.sh(r) == c.map_values(|q: usize| g0.sh(inner)[q as int]) && g.dt(r) == g0.dt(inner));
                    assert(r == NodeId(g0.nodes@.len() as u32));
                    assert(g.sh(id) == g0.sh(id) && g.dt(id) == g0.dt(id));
                    guard(g, r, id)
                },
                None => None,
            }
        },
        _ => None,
    }
}

/// Node `y` of `g` is `-x` over a leaf `x`.
pub open spec fn neg_of_leaf(g: Graph, y: NodeId) -> bool {
    &&& g.opn(y) == Op::Neg && g.srcs(y).len() == 1
    &&& g.srcs(g.arg(y, 0)).len() == 0
}

/// Node `y` of `g` is `-(-x)` over a leaf `x` of its own shape and dtype.
pub open spec fn double_neg_of_leaf(g: Graph, y: NodeId, x: NodeId) -> bool {
    let s = g.arg(y, 0);
    &&& g.opn(y) == Op::Neg && g.srcs(y) == seq![s]
    &&& g.opn(s) == Op::Neg && g.srcs(s) == seq![x]
    &&& g.srcs(x).len() == 0
    &&& guarded(g, x, y) == Some(x)
}

/// Node `y` of `g` is `x * ones` over leaves, `ones` an F32 constant of ones, `x` of `y`'s
/// shape and dtype.
pub open spec fn mul_one_of_leaf(g: Graph, y: NodeId, x: NodeId) -> bool {
    let o = g.arg(y, 1);
    &&& g.opn(y) == Op::Mul && g.srcs(y) == seq![x, o]
    &&& g.srcs(x).len() == 0 && g.srcs(o).len() == 0
    &&& f32_all_of(g, o, 0x3f80_0000, 0x3f80_0000)
    &&& guarded(g, x, y) == Some(x)
}

/// Node `y` of `g` is `zeros + x * ones` (see `mul_one_of_leaf`), `zeros` a leaf F32
/// constant of (signed) zeros and `x` not one.
pub open spec fn add_zero_of_mul_one(g: Graph, y: NodeId, x: NodeId) -> bool {
    let z = g.arg(y, 0);
    let m = g.arg(y, 1);
    &&& g.opn(y) == Op::Add && g.srcs(y) == seq![z, m]
    &&& g.srcs(z).len() == 0 && f32_all_of(g, z, 0x0000_0000, 0x8000_0000)
    &&& mul_one_of_leaf(g, m, x)
    &&& !f32_all_of(g, x, 0x0000_0000, 0x8000_0000)
    &&& guarded(g, x, y) == Some(x)
}

/// What one pass has made of node `y` of `g0` (its replacement `remap[y]` in `g`): a leaf
/// stays; a negation of a leaf is rebuilt as such; a double negation of a leaf, a
/// multiplication of a leaf by ones, and zeros plus such a product all become the leaf.
pub open spec fn pass_done(g: Graph, remap: Seq<NodeId>, g0: Graph, y: NodeId) -> bool {
    let r = remap[y.0 as int];
    &&& g0.srcs(y).len() == 0 ==> r == y
    &&& neg_of_leaf(g0, y) ==> g.valid(r) && g.opn(r) == Op::Neg && g.srcs(r) == g0.srcs(y)
    &&& double_neg_of_leaf(g0, y, g0.arg(g0.arg(y, 0), 0)) ==> r == g0.arg(g0.arg(y, 0), 0)
    &&& mul_one_of_leaf(g0, y, g0.arg(y, 0)) ==> r == g0.arg(y, 0)
    &&& add_zero_of_mul_one(g0, y, g0.arg(g0.arg(y, 1), 0)) ==> r == g0.arg(g0.arg(y, 1), 0)
}

/// `op` is one of the elementwise ops whose rules look only at operands already in the
/// graph: negation, reciprocal, multiplication and addition.
pub open spec fn arith_op(op: Op) -> bool {
    op == Op::Neg || op == Op::Recip || op == Op::Mul || op == Op::Add
}

/// Rebuild node `id` over remapped sources: a rule's replacement, an identical node built
/// earlier in this pass, the node itself (its sources did not move), or a fresh copy.
#[verifier::loop_isolation(false)]
#[verifier::spinoff_prover]
fn rewrite(g: &mut Graph, id: NodeId, remap: &Vec<NodeId>, cse: &mut Vec<NodeId>) -> (r: NodeId)
    requires
        old(g).wf(), old(g).valid(id), (id.0 as int) < remap@.len(), remap@.len() <= old(g).nodes@.len(),
        forall|x: int| 0 <= x < remap@.len() ==> stands_for(*old(g), #[trigger] remap@[x], *old(g), NodeId(x as u32)),
        old(g).all_valid(old(cse)@),
    ensures
        final(g).wf(), final(g).extends(*old(g)),
        stands_for(*final(g), r, *old(g), id),
        final(g).all_valid(final(cse)@),
        old(g).srcs(id).len() == 0 ==> r == id,
        old(g).srcs(id).len() > 0 && arith_op(old(g).opn(id)) && old(g).nodes@.len() < 0xffff_ffff ==> ({
            let src = old(g).srcs(id).map_values(|q: NodeId| remap@[q.0 as int]);
            &&& rule_out(*old(g), old(g).opn(id), src, id) matches Some(v) ==> r == v
            &&& rule_out(*old(g), old(g).opn(id), src, id) is None ==> final(g).valid(r)
                && final(g).opn(r) == old(g).opn(id) && final(g).srcs(r) == src
        }),
{
    let ghost g0 = *g;
    proof { assert(node_wf(g.nodes@, id.0 as int)); }
    let old_src = crate::graph::op::copy_vec(&g.nodes[id.0 as usize].src);
    if old_src.len() == 0 {
        return id;
    }
    let mut src: Vec<NodeId> = Vec::new();
    let mut k: usize = 0;
    while k < old_src.len()
        invariant
            k <= old_src@.len(), src@.len() == k, old_src@ == g0.srcs(id), *g == g0,
            forall|j: int| 0 <= j < k ==> src@[j] == remap@[old_src@[j].0 as int],
        decreases old_src@.len() - k,
    {
        let s = old_src[k];
        assert(s.0 < id.0);
        src.push(remap[s.0 as usize]);
        k = k + 1;
    }
    proof {
        assert(g.all_valid(src@)) by {
            assert forall|j: int| 0 <= j < src@.len() implies g.valid(#[trigger] src@[j]) by {
                let x = old_src@[j].0 as int;
                assert(stands_for(g0, remap@[x], g0, NodeId(x as u32)));
            }
        }
        assert(ins_of(g.nodes@, src@) =~= ins_of(g.nodes@, old_src@)) by {
            assert forall|j: int| 0 <= j < src@.len() implies ins_of(g.nodes@, src@)[j] == ins_of(g.nodes@, old_src@)[j] by {
                let x = old_src@[j].0 as int;
                assert(stands_for(g0, remap@[x], g0, NodeId(x as u32)));
                assert(NodeId(x as u32) == old_src@[j]);
            }
        }
    }
    let op = g.nodes[id.0 as usize].op.duplicate();
    proof {
        assert(src@ =~= g0.srcs(id).map_values(|q: NodeId| remap@[q.0 as int]));
        if arith_op(g0.opn(id)) {
            assert(op == g0.opn(id));
        }
    }
    if let Some(r) = rule(g, &op, &src, id) {
        proof {
            assert forall|j: int| 0 <= j < cse@.len() implies g.valid(#[trigger] cse@[j]) by {
                assert(g0.valid(cse@[j]));
            }
        }
        return r;
    }
    let ghost g1 = *g;
    proof {
        lemma_ins_prefix(g0.nodes@, g1.nodes@, src@, g0.nodes@.len() as int);
        lemma_ins_prefix(g0.nodes@, g1.nodes@, old_src@, g0.nodes@.len() as int);
        assert(srcs_below(src@, g0.nodes@.len() as int));
        assert(node_wf(g1.nodes@, id.0 as int));
        lemma_op_eq_derive(op, g0.opn(id), ins_of(g1.nodes@, src@));
        assert forall|j: int| 0 <= j < cse@.len() implies g1.valid(#[trigger] cse@[j]) by {
            assert(g0.valid(cse@[j]));
        }
    }
    let mut k: usize = 0;
    while k < cse.len()
        invariant k <= cse@.len(), *g == g1, g1.all_valid(cse@),
        decreases cse@.len() - k,
    {
        let c = cse[k];
        assert(g.valid(cse@[k as int]));
        if same_op(&g.nodes[c.0 as usize].op, &op) && same_ids(&g.nodes[c.0 as usize].src, &src) {
            proof {
                assert(node_wf(g1.nodes@, c.0 as int));
                lemma_op_eq_derive(g1.opn(c), op, ins_of(g1.nodes@, src@));
            }
            return c;
        }
        k = k + 1;
    }
    proof {
        if arith_op(g0.opn(id)) {
            assert(g1 == g0);
        }
    }
    let new = if same_ids(&src, &old_src) {
        id
    } else if g.nodes.len() >= 0xffff_ffffusize {
        id
    } else {
        g.push(op, src)
    };
    proof {
        assert forall|j: int| 0 <= j < cse@.len() implies g.valid(#[trigger] cse@[j]) by {
            assert(g1.valid(cse@[j]));
        }
    }
    cse.push(new);
    new
}

/// A source of the `i`-th node of a bottom-up order of `root`'s cone comes earlier in it.
proof fn lemma_src_index(g0: Graph, root: NodeId, order: Seq<NodeId>, i: int, s: NodeId) -> (j: int)
    requires
        g0.wf(), ascending(order), forall|y: NodeId| order.contains(y) <==> reaches(g0, seq![root], y),
        0 <= i < order.len(), g0.srcs(order[i]).contains(s),
    ensures 0 <= j < i, order[j] == s,
{
    let id = order[i];
    assert(order.contains(id));
    lemma_reached_valid(g0, seq![root], id);
    assert(node_wf(g0.nodes@, id.0 as int));
    let k = choose|k: int| 0 <= k < g0.srcs(id).len() && g0.srcs(id)[k] == s;
    assert(s.0 < id.0);
    lemma_reach_src(g0, seq![root], id, s);
    assert(order.contains(s));
    let j = choose|j: int| 0 <= j < order.len() && order[j] == s;
    if j > i {
        assert(order[i].0 < order[j].0);
    }
    j
}

/// A leaf of a well-formed graph is no negation.
proof fn lemma_leaf_not_neg(g: Graph, x: NodeId)
    requires g.wf(), g.valid(x), g.srcs(x).len() == 0,
    ensures g.opn(x) != Op::Neg && g.opn(x) != Op::Recip,
{
    assert(node_wf(g.nodes@, x.0 as int));
}

/// One step of a pass keeps what the earlier steps did and does its own node.
proof fn lemma_pass_step(gi: Graph, g: Graph, ri: Seq<NodeId>, rm: Seq<NodeId>, g0: Graph, root: NodeId,
    order: Seq<NodeId>, i: int, new: NodeId)
    requires
        g0.wf(), gi.wf(), g.wf(), gi.extends(g0), g.extends(gi), g.nodes@.len() < 0xffff_ffff,
        ascending(order), forall|y: NodeId| order.contains(y) <==> reaches(g0, seq![root], y),
        0 <= i < order.len(), ri.len() == g0.nodes@.len(),
        g0.valid(order[i]), rm == ri.update(order[i].0 as int, new),
        forall|j: int| 0 <= j < i ==> #[trigger] pass_done(gi, ri, g0, order[j]),
        gi.srcs(order[i]).len() == 0 ==> new == order[i],
        gi.srcs(order[i]).len() > 0 && arith_op(gi.opn(order[i])) && gi.nodes@.len() < 0xffff_ffff ==> ({
            let src = gi.srcs(order[i]).map_values(|q: NodeId| ri[q.0 as int]);
            &&& rule_out(gi, gi.opn(order[i]), src, order[i]) matches Some(v) ==> new == v
            &&& rule_out(gi, gi.opn(order[i]), src, order[i]) is None ==> g.valid(new)
                && g.opn(new) == gi.opn(order[i]) && g.srcs(new) == src
        }),
        forall|y: int| 0 <= y < ri.len() ==> gi.valid(#[trigger] ri[y]),
    ensures forall|j: int| 0 <= j < i + 1 ==> #[trigger] pass_done(g, rm, g0, order[j]),
{
    let id = order[i];
    assert(gi.nodes@[id.0 as int] == g0.nodes@[id.0 as int]);
    assert forall|j: int| 0 <= j < i + 1 implies #[trigger] pass_done(g, rm, g0, order[j]) by {
        if j < i {
            let y = order[j];
            assert(y.0 < id.0);
            assert(rm[y.0 as int] == ri[y.0 as int]);
            assert(pass_done(gi, ri, g0, y));
            let r = ri[y.0 as int];
            if neg_of_leaf(g0, y) {
                assert(g.nodes@[r.0 as int] == gi.nodes@[r.0 as int]);
            }
        } else {
            assert(rm[id.0 as int] == new);
            if neg_of_leaf(g0, id) {
                let x = g0.arg(id, 0);
                assert(g0.srcs(id).contains(x));
                let jx = lemma_src_index(g0, root, order, i, x);
                assert(pass_done(gi, ri, g0, order[jx]));
                assert(ri[x.0 as int] == x);
                assert(gi.nodes@[x.0 as int] == g0.nodes@[x.0 as int]);
                lemma_leaf_not_neg(g0, x);
                let src = gi.srcs(id).map_values(|q: NodeId| ri[q.0 as int]);
                assert(src =~= seq![x]);
                assert(rule_out(gi, gi.opn(id), src, id) is None);
            }
            if double_neg_of_leaf(g0, id, g0.arg(g0.arg(id, 0), 0)) {
                let sn = g0.arg(id, 0);
                let x = g0.arg(sn, 0);
                assert(g0.srcs(id).contains(sn));
                let js = lemma_src_index(g0, root, order, i, sn);
                assert(pass_done(gi, ri, g0, order[js]));
                assert(neg_of_leaf(g0, sn));
                let rs = ri[sn.0 as int];
                assert(order.contains(sn));
                lemma_reached_valid(g0, seq![root], sn);
                assert(node_wf(g0.nodes@, sn.0 as int));
                assert(g0.srcs(sn)[0] == x);
                assert(gi.valid(rs) && gi.opn(rs) == Op::Neg && gi.srcs(rs) == seq![x]);
                let src = gi.srcs(id).map_values(|q: NodeId| ri[q.0 as int]);
                assert(src =~= seq![rs]);
                assert(gi.nodes@[x.0 as int] == g0.nodes@[x.0 as int]);
                assert(guarded(gi, x, id) == guarded(g0, x, id));
                assert(rule_out(gi, gi.opn(id), src, id) == Some(x));
            }
            if mul_one_of_leaf(g0, id, g0.arg(id, 0)) {
                let x = g0.arg(id, 0);
                let o = g0.arg(id, 1);
                assert(g0.srcs(id).contains(x) && g0.srcs(id).contains(o));
                let jx = lemma_src_index(g0, root, order, i, x);
                let jo = lemma_src_index(g0, root, order, i, o);
                assert(pass_done(gi, ri, g0, order[jx]) && pass_done(gi, ri, g0, order[jo]));
                let src = gi.srcs(id).map_values(|q: NodeId| ri[q.0 as int]);
                assert(src =~= seq![x, o]);
                assert(gi.nodes@[x.0 as int] == g0.nodes@[x.0 as int]);
                assert(gi.nodes@[o.0 as int] == g0.nodes@[o.0 as int]);
                assert(f32_all_of(gi, o, 0x3f80_0000, 0x3f80_0000));
                assert(guarded(gi, x, id) == guarded(g0, x, id));
                assert(rule_out(gi, gi.opn(id), src, id) == Some(x));
            }
            if add_zero_of_mul_one(g0, id, g0.arg(g0.arg(id, 1), 0)) {
                let z = g0.arg(id, 0);
                let m = g0.arg(id, 1);
                let x = g0.arg(m, 0);
                assert(g0.srcs(id).contains(z) && g0.srcs(id).contains(m));
                let jz = lemma_src_index(g0, root, order, i, z);
                let jm = lemma_src_index(g0, root, order, i, m);
                assert(pass_done(gi, ri, g0, order[jz]) && pass_done(gi, ri, g0, order[jm]));
                assert(ri[m.0 as int] == x);
                let src = gi.srcs(id).map_values(|q: NodeId| ri[q.0 as int]);
                assert(src =~= seq![z, x]);
                assert(order.contains(id));
                lemma_reached_valid(g0, seq![root], id);
                assert(order.contains(m));
                lemma_reached_valid(g0, seq![root], m);
                assert(node_wf(g0.nodes@, m.0 as int));
                assert(g0.srcs(m)[0] == x);
                assert(gi.nodes@[x.0 as int] == g0.nodes@[x.0 as int]);
                assert(gi.nodes@[z.0 as int] == g0.nodes@[z.0 as int]);
                assert(!f32_all_of(gi, x, 0x0000_0000, 0x8000_0000));
                assert(f32_all_of(gi, z, 0x0000_0000, 0x8000_0000));
                assert(guarded(gi, x, id) == guarded(g0, x, id));
                assert(rule_out(gi, gi.opn(id), src, id) == Some(x));
            }
            let r = rm[id.0 as int];
            assert(g0.srcs(id).len() == 0 ==> r == id);
            assert(neg_of_leaf(g0, id) ==> g.valid(r) && g.opn(r) == Op::Neg && g.srcs(r) == g0.srcs(id));
            assert(double_neg_of_leaf(g0, id, g0.arg(g0.arg(id, 0), 0)) ==> r == g0.arg(g0.arg(id, 0), 0));
            assert(mul_one_of_leaf(g0, id, g0.arg(id, 0)) ==> r == g0.arg(id, 0));
            assert(add_zero_of_mul_one(g0, id, g0.arg(g0.arg(id, 1), 0)) ==> r == g0.arg(g0.arg(id, 1), 0));
        }
    }
}

/// One bottom-up pass over the cone of `root`; returns the new root.
#[verifier::loop_isolation(false)]
fn simplify_once(g: &mut Graph, root: NodeId) -> (r: NodeId)
    requires old(g).wf(), old(g).valid(root),
    ensures
        final(g).wf(), final(g).extends(*old(g)), stands_for(*final(g), r, *old(g), root),
        final(g).nodes@.len() < 0xffff_ffff ==> ({
            let g0 = *old(g);
            &&& g0.srcs(root).len() == 0 ==> r == root
            &&& double_neg_of_leaf(g0, root, g0.arg(g0.arg(root, 0), 0)) ==> r == g0.arg(g0.arg(root, 0), 0)
            &&& mul_one_of_leaf(g0, root, g0.arg(root, 0)) ==> r == g0.arg(root, 0)
            &&& add_zero_of_mul_one(g0, root, g0.arg(g0.arg(root, 1), 0)) ==> r == g0.arg(g0.arg(root, 1), 0)
        }),
{
    let ghost g0 = *g;
    let order = reachable(g, root);
    let n0 = g.nodes.len();
    let mut remap: Vec<NodeId> = Vec::new();
    let mut x: usize = 0;
    while x < n0
        invariant
            x <= n0, n0 == g0.nodes@.len(), *g == g0, g0.wf(), remap@.len() == x,
            forall|y: int| 0 <= y < x ==> #[trigger] remap@[y] == NodeId(y as u32),
        decreases n0 - x,
    {
        remap.push(NodeId(x as u32));
        x = x + 1;
    }
    let mut cse: Vec<NodeId> = Vec::new();
    let mut i: usize = 0;
    while i < order.len()
        invariant
            i <= order@.len(), n0 == g0.nodes@.len(), remap@.len() == n0,
            g.wf(), g.extends(g0),
            forall|y: int| 0 <= y < n0 ==> stands_for(*g, #[trigger] remap@[y], g0, NodeId(y as u32)),
            g.all_valid(cse@),
            g.nodes@.len() < 0xffff_ffff ==> forall|j: int| 0 <= j < i ==> #[trigger] pass_done(*g, remap@, g0, order@[j]),
        decreases order@.len() - i,
    {
        let id = order[i];
        proof {
            assert(order@.contains(id)) by { assert(order@[i as int] == id); }
            lemma_reached_valid(g0, seq![root], id);
            assert forall|y: int| 0 <= y < remap@.len() implies stands_for(*g, #[trigger] remap@[y], *g, NodeId(y as u32)) by {
                assert(stands_for(*g, remap@[y], g0, NodeId(y as u32)));
                assert(g0.valid(NodeId(y as u32)));
            }
        }
        let ghost gi = *g;
        let ghost ri = remap@;
        let new = rewrite(g, id, &remap, &mut cse);
        remap.set(id.0 as usize, new);
        proof {
            if g.nodes@.len() < 0xffff_ffff {
                lemma_pass_step(gi, *g, ri, remap@, g0, root, order@, i as int, new);
            }
            assert forall|y: int| 0 <= y < n0 implies stands_for(*g, #[trigger] remap@[y], g0, NodeId(y as u32)) by {
                if y != id.0 {
                    assert(stands_for(gi, remap@[y], g0, NodeId(y as u32)));
                } else {
                    assert(NodeId(y as u32) == id);
                }
            }
        }
        i = i + 1;
    }
    proof {
        if g.nodes@.len() < 0xffff_ffff {
            lemma_root_reaches(g0, seq![root], 0);
            assert(order@.contains(root));
            let j = choose|j: int| 0 <= j < order@.len() && order@[j] == root;
            assert(pass_done(*g, remap@, g0, order@[j]));
        }
    }
    remap[root.0 as usize]
}

/// The leaf that `simplify` reduces `root` of `g` to, when `root` is a leaf, a double
/// negation of a leaf, a multiplication of a leaf by ones, or zeros plus such a product.
pub open spec fn simplest(g: Graph, root: NodeId) -> Option<NodeId> {
    if g.srcs(root).len() == 0 {
        Some(root)
    } else if double_neg_of_leaf(g, root, g.arg(g.arg(root, 0), 0)) {
        Some(g.arg(g.arg(root, 0), 0))
    } else if mul_one_of_leaf(g, root, g.arg(root, 0)) {
        Some(g.arg(root, 0))
    } else if add_zero_of_mul_one(g, root, g.arg(g.arg(root, 1), 0)) {
        Some(g.arg(g.arg(root, 1), 0))
    } else {
        None
    }
}

/// Simplify the subgraph rooted at `root` until its node count stops dropping (at most
/// eight passes); returns the new root, a node of the same shape and dtype. Unless the arena
/// fills up, a leaf root stays, and a double negation of a leaf, a multiplication of a leaf by
/// ones, or zeros plus such a product becomes the leaf.
pub fn simplify(g: &mut Graph, root: NodeId) -> (r: NodeId)
    requires old(g).wf(), old(g).valid(root),
    ensures
        final(g).wf(), final(g).extends(*old(g)), stands_for(*final(g), r, *old(g), root),
        final(g).nodes@.len() < 0xffff_ffff ==> (simplest(*old(g), root) matches Some(t) ==> r == t),
{
    let ghost g0 = *g;
    let ghost target = simplest(g0, root);
    let ghost mut ran = false;
    proof {
        if target is Some {
            let t = target->0;
            assert(node_wf(g0.nodes@, root.0 as int));
            if g0.srcs(root).len() > 0 {
                if double_neg_of_leaf(g0, root, g0.arg(g0.arg(root, 0), 0)) {
                    let sn = g0.arg(root, 0);
                    assert(g0.srcs(root).contains(sn));
                    assert(node_wf(g0.nodes@, sn.0 as int));
                    assert(g0.srcs(sn).contains(t));
                } else if mul_one_of_leaf(g0, root, g0.arg(root, 0)) {
                    assert(g0.srcs(root).contains(t));
                } else {
                    let m = g0.arg(root, 1);
                    assert(g0.srcs(root).contains(m));
                    assert(node_wf(g0.nodes@, m.0 as int));
                    assert(g0.srcs(m).contains(t));
                }
            }
            assert(g0.valid(t) && g0.srcs(t).len() == 0);
        }
    }
    let mut root2 = root;
    let mut prev: usize = usize::MAX;
    let mut it: usize = 0;
    while it < 8
        invariant
            g.wf(), g.extends(*old(g)), stands_for(*g, root2, *old(g), root),
            g0 == *old(g), target == simplest(g0, root),
            !ran ==> *g == g0 && root2 == root,
            it > 0 ==> ran,
            target matches Some(t) ==> g0.valid(t) && g0.srcs(t).len() == 0,
            ran && g.nodes@.len() < 0xffff_ffff ==> (target matches Some(t) ==> root2 == t),
        ensures ran,
        decreases 8 - it,
    {
        let ghost gb = *g;
        let ghost rb = root2;
        root2 = simplify_once(g, root2);
        proof {
            if g.nodes@.len() < 0xffff_ffff && target is Some {
                let t = target->0;
                if ran {
                    assert(gb.nodes@[t.0 as int] == g0.nodes@[t.0 as int]);
                    assert(gb.srcs(rb).len() == 0);
                    assert(root2 == rb);
                } else {
                    assert(gb == g0 && rb == root);
                    if g0.srcs(root).len() == 0 {
                        assert(root2 == root);
                    } else if double_neg_of_leaf(g0, root, g0.arg(g0.arg(root, 0), 0)) {
                        assert(double_neg_of_leaf(gb, rb, gb.arg(gb.arg(rb, 0), 0)));
                        assert(t == gb.arg(gb.arg(rb, 0), 0));
                        assert(root2 == t);
                    } else if mul_one_of_leaf(g0, root, g0.arg(root, 0)) {
                        assert(root2 == t);
                    } else {
                        assert(root2 == t);
                    }
                }
                assert(root2 == t);
            }
            ran = true;
        }
        let n = node_count(g, root2);
        if n >= prev {
            break;
        }
        prev = n;
        it = it + 1;
    }
    root2
}

} // verus!
