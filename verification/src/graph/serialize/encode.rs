//! Encoding half of the codec: the primitive byte writers, the exhaustive per-op encoder,
//! the blob framing, and `serialize_graph` / `serialize_reachable` / `serialize_multi`.
//! Every writer appends exactly the bytes the `wire`, `opcode` and `blob` specs name.

use vstd::prelude::*;
use crate::bytes::{le_u32, push_u32, push_u64};
use crate::dtype::DType;
use crate::storage::Storage;
use crate::graph::{ArgKind, Graph, NodeId, Op, ScatterOp};
use crate::graph::serialize::{InputBinding, InputRole};
use crate::graph::serialize::wire::{
    enc_bool, enc_ids, enc_pairs, enc_storage, enc_str, enc_triples, enc_usize, enc_usizes, enc_vec, flat2, flat3,
    tag_of_argkind, tag_of_dtype, tag_of_scatter,
};
use crate::graph::serialize::opcode::enc_op;
use crate::graph::inspect::{ascending, reach_set, reaches, reachable_multi, lemma_reach_src, lemma_root_reaches, lemma_ascending_unique};
use vstd::utf8::encode_utf8;
use crate::graph::serialize::blob::{binding_v, bindings_v, enc_binding, enc_bindings, enc_blob, enc_entries, enc_entry, enc_node, enc_nodes, graph_v, ids_v, magic, node_v};

verus! {

fn w_u8(o: &mut Vec<u8>, v: u8)
    ensures final(o)@ == old(o)@ + seq![v],
{
    o.push(v);
    assert(o@ =~= old(o)@ + seq![v]);
}

fn w_u32(o: &mut Vec<u8>, v: u32)
    ensures final(o)@ == old(o)@ + le_u32(v),
{
    push_u32(o, v);
}

fn w_usize(o: &mut Vec<u8>, v: usize)
    ensures final(o)@ == old(o)@ + enc_usize(v),
{
    push_u64(o, v as u64);
}

fn w_bool(o: &mut Vec<u8>, v: bool)
    ensures final(o)@ == old(o)@ + enc_bool(v),
{
    w_u8(o, if v { 1u8 } else { 0u8 });
}

proof fn lemma_enc_usizes_push(x: Seq<usize>, a: usize)
    ensures enc_usizes(x.push(a)) == enc_usizes(x) + enc_usize(a),
{
    assert(x.push(a).drop_last() =~= x);
}

/// Append each value of `v` as eight bytes.
fn w_usizes(o: &mut Vec<u8>, v: &Vec<usize>)
    ensures final(o)@ == old(o)@ + enc_usizes(v@),
{
    let mut i: usize = 0;
    while i < v.len()
        invariant
            i <= v@.len(),
            o@ == old(o)@ + enc_usizes(v@.take(i as int)),
        decreases v@.len() - i,
    {
        w_usize(o, v[i]);
        proof {
            assert(v@.take(i + 1) =~= v@.take(i as int).push(v@[i as int]));
            lemma_enc_usizes_push(v@.take(i as int), v@[i as int]);
        }
        i = i + 1;
        assert(o@ =~= old(o)@ + enc_usizes(v@.take(i as int)));
    }
    assert(v@.take(v@.len() as int) =~= v@);
}

fn w_vec_usize(o: &mut Vec<u8>, v: &Vec<usize>)
    ensures final(o)@ == old(o)@ + enc_vec(v@),
{
    w_u32(o, v.len() as u32);
    w_usizes(o, v);
    assert(o@ =~= old(o)@ + enc_vec(v@));
}

proof fn lemma_flat3_push(v: Seq<(usize, usize, usize)>, t: (usize, usize, usize))
    ensures flat3(v.push(t)) == flat3(v).push(t.0).push(t.1).push(t.2),
{
    let n = v.len();
    let w = v.push(t);
    assert forall|j: int| 0 <= j < 3 * n + 3 implies flat3(w)[j] == flat3(v).push(t.0).push(t.1).push(t.2)[j] by {
        if j < 3 * n {
            assert(j / 3 < n) by (nonlinear_arith) requires 0 <= j < 3 * n;
            assert(j / 3 >= 0) by (nonlinear_arith) requires 0 <= j;
            assert(w[j / 3] == v[j / 3]);
        } else if j == 3 * n {
            assert(j / 3 == n && j % 3 == 0) by (nonlinear_arith) requires j == 3 * n;
        } else if j == 3 * n + 1 {
            assert(j / 3 == n && j % 3 == 1) by (nonlinear_arith) requires j == 3 * n + 1;
        } else {
            assert(j / 3 == n && j % 3 == 2) by (nonlinear_arith) requires j == 3 * n + 2;
        }
    }
    assert(flat3(w) =~= flat3(v).push(t.0).push(t.1).push(t.2));
}

proof fn lemma_flat2_push(v: Seq<(usize, usize)>, t: (usize, usize))
    ensures flat2(v.push(t)) == flat2(v).push(t.0).push(t.1),
{
    let n = v.len();
    let w = v.push(t);
    assert forall|j: int| 0 <= j < 2 * n + 2 implies flat2(w)[j] == flat2(v).push(t.0).push(t.1)[j] by {
        if j < 2 * n {
            assert(j / 2 < n) by (nonlinear_arith) requires 0 <= j < 2 * n;
            assert(j / 2 >= 0) by (nonlinear_arith) requires 0 <= j;
            assert(w[j / 2] == v[j / 2]);
        } else if j == 2 * n {
            assert(j / 2 == n && j % 2 == 0) by (nonlinear_arith) requires j == 2 * n;
        } else {
            assert(j / 2 == n && j % 2 == 1) by (nonlinear_arith) requires j == 2 * n + 1;
        }
    }
    assert(flat2(w) =~= flat2(v).push(t.0).push(t.1));
}

fn w_triples(o: &mut Vec<u8>, v: &Vec<(usize, usize, usize)>)
    ensures final(o)@ == old(o)@ + enc_triples(v@),
{
    w_u32(o, v.len() as u32);
    let ghost head = o@;
    let mut i: usize = 0;
    while i < v.len()
        invariant
            i <= v@.len(),
            o@ == head + enc_usizes(flat3(v@.take(i as int))),
        decreases v@.len() - i,
    {
        let (a, b, c) = v[i];
        w_usize(o, a);
        w_usize(o, b);
        w_usize(o, c);
        proof {
            let x = flat3(v@.take(i as int));
            assert(v@.take(i + 1) =~= v@.take(i as int).push(v@[i as int]));
            lemma_flat3_push(v@.take(i as int), v@[i as int]);
            lemma_enc_usizes_push(x, a);
            lemma_enc_usizes_push(x.push(a), b);
            lemma_enc_usizes_push(x.push(a).push(b), c);
        }
        i = i + 1;
        assert(o@ =~= head + enc_usizes(flat3(v@.take(i as int))));
    }
    assert(v@.take(v@.len() as int) =~= v@);
    assert(o@ =~= old(o)@ + enc_triples(v@));
}

fn w_pairs(o: &mut Vec<u8>, v: &Vec<(usize, usize)>)
    ensures final(o)@ == old(o)@ + enc_pairs(v@),
{
    w_u32(o, v.len() as u32);
    let ghost head = o@;
    let mut i: usize = 0;
    while i < v.len()
        invariant
            i <= v@.len(),
            o@ == head + enc_usizes(flat2(v@.take(i as int))),
        decreases v@.len() - i,
    {
        let (a, b) = v[i];
        w_usize(o, a);
        w_usize(o, b);
        proof {
            let x = flat2(v@.take(i as int));
            assert(v@.take(i + 1) =~= v@.take(i as int).push(v@[i as int]));
            lemma_flat2_push(v@.take(i as int), v@[i as int]);
            lemma_enc_usizes_push(x, a);
            lemma_enc_usizes_push(x.push(a), b);
        }
        i = i + 1;
        assert(o@ =~= head + enc_usizes(flat2(v@.take(i as int))));
    }
    assert(v@.take(v@.len() as int) =~= v@);
    assert(o@ =~= old(o)@ + enc_pairs(v@));
}

/// The stable wire tag of a dtype.
pub fn dtype_tag(d: DType) -> (t: u8)
    ensures t == tag_of_dtype(d),
{
    match d {
        DType::BOOL => 0,
        DType::U8 => 1,
        DType::U16 => 2,
        DType::U32 => 3,
        DType::U64 => 4,
        DType::I8 => 5,
        DType::I16 => 6,
        DType::I32 => 7,
        DType::I64 => 8,
        DType::F8E4M3 => 9,
        DType::F8E5M2 => 10,
        DType::F16 => 11,
        DType::BF16 => 12,
        DType::F32 => 13,
        DType::F64 => 14,
        DType::C64 => 15,
        DType::C128 => 16,
    }
}

fn w_dtype(o: &mut Vec<u8>, d: DType)
    ensures final(o)@ == old(o)@ + seq![tag_of_dtype(d)],
{
    w_u8(o, dtype_tag(d));
}

fn w_bytes(o: &mut Vec<u8>, b: &[u8])
    ensures final(o)@ == old(o)@ + b@,
{
    let mut i: usize = 0;
    while i < b.len()
        invariant
            i <= b@.len(),
            o@ == old(o)@ + b@.take(i as int),
        decreases b@.len() - i,
    {
        o.push(b[i]);
        i = i + 1;
        assert(o@ =~= old(o)@ + b@.take(i as int));
    }
    assert(b@.take(b@.len() as int) =~= b@);
}

fn w_storage(o: &mut Vec<u8>, s: &Storage)
    ensures final(o)@ == old(o)@ + enc_storage(s.spec_dtype(), s.spec_bytes()),
{
    w_dtype(o, s.dtype());
    let bytes = s.bytes();
    push_u64(o, bytes.len() as u64);
    w_bytes(o, bytes);
    assert(o@ =~= old(o)@ + enc_storage(s.spec_dtype(), s.spec_bytes()));
}

fn w_scatter(o: &mut Vec<u8>, s: ScatterOp)
    ensures final(o)@ == old(o)@ + seq![tag_of_scatter(s)],
{
    let tag: u8 = match s {
        ScatterOp::Assign => 0,
        ScatterOp::Add => 1,
        ScatterOp::Max => 2,
        ScatterOp::Min => 3,
    };
    w_u8(o, tag);
}

fn w_argkind(o: &mut Vec<u8>, k: ArgKind)
    ensures final(o)@ == old(o)@ + seq![tag_of_argkind(k)],
{
    let tag: u8 = match k {
        ArgKind::Max => 0,
        ArgKind::Min => 1,
    };
    w_u8(o, tag);
}

/// A counted UTF-8 string.
fn w_str(o: &mut Vec<u8>, s: &str)
    ensures final(o)@ == old(o)@ + enc_str(encode_utf8(s@)),
{
    let b = s.as_bytes();
    w_u32(o, b.len() as u32);
    w_bytes(o, b);
    assert(o@ =~= old(o)@ + enc_str(encode_utf8(s@)));
}

/// Append `op`: its tag, then its attributes in declaration order.
#[verifier::rlimit(40)]
pub fn write_op(o: &mut Vec<u8>, op: &Op)
    ensures final(o)@ == old(o)@ + enc_op(*op),
{
    match op {
        Op::Const { data, shape } => {
            w_u8(o, 0);
            w_storage(o, data);
            w_vec_usize(o, shape);
        },
        Op::Input { shape, dtype } => {
            w_u8(o, 1);
            w_vec_usize(o, shape);
            w_dtype(o, *dtype);
        },
        Op::Iota { shape, axis, dtype } => {
            w_u8(o, 2);
            w_vec_usize(o, shape);
            w_usize(o, *axis);
            w_dtype(o, *dtype);
        },
        Op::RandUniform { shape } => {
            w_u8(o, 3);
            w_vec_usize(o, shape);
        },
        Op::Cast { to } => {
            w_u8(o, 4);
            w_dtype(o, *to);
        },
        Op::Bitcast { to } => {
            w_u8(o, 5);
            w_dtype(o, *to);
        },
        Op::Detach => w_u8(o, 6),
        Op::Add => w_u8(o, 7),
        Op::Mul => w_u8(o, 8),
        Op::Max => w_u8(o, 9),
        Op::Neg => w_u8(o, 10),
        Op::IDiv => w_u8(o, 11),
        Op::And => w_u8(o, 12),
        Op::Or => w_u8(o, 13),
        Op::Xor => w_u8(o, 14),
        Op::Shl => w_u8(o, 15),
        Op::Shr => w_u8(o, 16),
        Op::CmpLt => w_u8(o, 17),
        Op::CmpEq => w_u8(o, 18),
        Op::Where => w_u8(o, 19),
        Op::Recip => w_u8(o, 20),
        Op::Sqrt => w_u8(o, 21),
        Op::Exp2 => w_u8(o, 22),
        Op::Log2 => w_u8(o, 23),
        Op::Sin => w_u8(o, 24),
        Op::Floor => w_u8(o, 25),
        Op::Sum { axis } => {
            w_u8(o, 26);
            w_usize(o, *axis);
        },
        Op::Prod { axis } => {
            w_u8(o, 27);
            w_usize(o, *axis);
        },
        Op::ReduceMax { axis } => {
            w_u8(o, 28);
            w_usize(o, *axis);
        },
        Op::ArgReduce { axis, kind } => {
            w_u8(o, 29);
            w_usize(o, *axis);
            w_argkind(o, *kind);
        },
        Op::Softmax { axis } => {
            w_u8(o, 30);
            w_usize(o, *axis);
        },
        Op::RmsNorm { axis, eps_bits } => {
            w_u8(o, 31);
            w_usize(o, *axis);
            w_u32(o, *eps_bits);
        },
        Op::Sdpa { causal } => {
            w_u8(o, 32);
            w_bool(o, *causal);
        },
        Op::Reshape { shape } => {
            w_u8(o, 33);
            w_vec_usize(o, shape);
        },
        Op::Permute { perm } => {
            w_u8(o, 34);
            w_vec_usize(o, perm);
        },
        Op::Expand { shape } => {
            w_u8(o, 35);
            w_vec_usize(o, shape);
        },
        Op::Slice { ranges } => {
            w_u8(o, 36);
            w_triples(o, ranges);
        },
        Op::Flip { axes } => {
            w_u8(o, 37);
            w_vec_usize(o, axes);
        },
        Op::Pad { pads } => {
            w_u8(o, 38);
            w_pairs(o, pads);
        },
        Op::DotGeneral { lhs_contract, rhs_contract, lhs_batch, rhs_batch } => {
            w_u8(o, 39);
            w_vec_usize(o, lhs_contract);
            w_vec_usize(o, rhs_contract);
            w_vec_usize(o, lhs_batch);
            w_vec_usize(o, rhs_batch);
        },
        Op::QuantMatmul { bits, group_size, symmetric } => {
            w_u8(o, 40);
            w_u8(o, *bits);
            w_usize(o, *group_size);
            w_bool(o, *symmetric);
        },
        Op::Solve => w_u8(o, 41),
        Op::Det => w_u8(o, 42),
        Op::Cholesky => w_u8(o, 43),
        Op::Eigh => w_u8(o, 44),
        Op::Qr { r_factor } => {
            w_u8(o, 45);
            w_bool(o, *r_factor);
        },
        Op::Eigvals => w_u8(o, 46),
        Op::Complex => w_u8(o, 47),
        Op::Real => w_u8(o, 48),
        Op::Imag => w_u8(o, 49),
        Op::Gather { axis } => {
            w_u8(o, 50);
            w_usize(o, *axis);
        },
        Op::Scatter { axis, combine } => {
            w_u8(o, 51);
            w_usize(o, *axis);
            w_scatter(o, *combine);
        },
        Op::GatherAlong { axis } => {
            w_u8(o, 52);
            w_usize(o, *axis);
        },
        Op::ScatterAlong { axis, combine } => {
            w_u8(o, 53);
            w_usize(o, *axis);
            w_scatter(o, *combine);
        },
        Op::Argsort { axis, descending } => {
            w_u8(o, 54);
            w_usize(o, *axis);
            w_bool(o, *descending);
        },
    }
    assert(o@ =~= old(o)@ + enc_op(*op));
}

/// Append each id as four bytes.
fn w_ids(o: &mut Vec<u8>, v: &Vec<u32>)
    ensures final(o)@ == old(o)@ + enc_ids(v@),
{
    let mut i: usize = 0;
    while i < v.len()
        invariant
            i <= v@.len(),
            o@ == old(o)@ + enc_ids(v@.take(i as int)),
        decreases v@.len() - i,
    {
        w_u32(o, v[i]);
        proof {
            assert(v@.take(i + 1).drop_last() =~= v@.take(i as int));
        }
        i = i + 1;
        assert(o@ =~= old(o)@ + enc_ids(v@.take(i as int)));
    }
    assert(v@.take(v@.len() as int) =~= v@);
}

/// The raw ids of `v`.
fn raw_ids(v: &[NodeId]) -> (r: Vec<u32>)
    ensures r@ == ids_v(v@),
{
    let mut r: Vec<u32> = Vec::new();
    let mut i: usize = 0;
    while i < v.len()
        invariant
            i <= v@.len(),
            r@ == ids_v(v@.take(i as int)),
        decreases v@.len() - i,
    {
        r.push(v[i].0);
        i = i + 1;
        assert(r@ =~= ids_v(v@.take(i as int)));
    }
    assert(v@.take(v@.len() as int) =~= v@);
    r
}

/// Append a node: its op, then its counted source ids.
fn write_node(o: &mut Vec<u8>, op: &Op, src: &Vec<u32>)
    ensures final(o)@ == old(o)@ + enc_node(*op, src@),
{
    write_op(o, op);
    w_u32(o, src.len() as u32);
    w_ids(o, src);
    assert(o@ =~= old(o)@ + enc_node(*op, src@));
}

/// Append the magic, the version and a node count.
fn write_header(o: &mut Vec<u8>, n: u32)
    ensures final(o)@ == old(o)@ + magic() + seq![2u8] + le_u32(n),
{
    w_u8(o, 75);
    w_u8(o, 71);
    w_u8(o, 80);
    w_u8(o, 72);
    w_u8(o, 2);
    w_u32(o, n);
    assert(o@ =~= old(o)@ + magic() + seq![2u8] + le_u32(n));
}

/// Append every node of `g` in id order.
fn write_graph_nodes(o: &mut Vec<u8>, g: &Graph)
    ensures final(o)@ == old(o)@ + enc_nodes(graph_v(*g)),
{
    let ghost ns = graph_v(*g);
    let mut k: usize = 0;
    while k < g.nodes.len()
        invariant
            k <= g.nodes@.len(),
            ns == graph_v(*g),
            o@ == old(o)@ + enc_nodes(ns.take(k as int)),
        decreases g.nodes@.len() - k,
    {
        let n = &g.nodes[k];
        let ids = raw_ids(n.src.as_slice());
        write_node(o, &n.op, &ids);
        proof {
            assert(ns.take(k + 1).drop_last() =~= ns.take(k as int));
            assert(ns.take(k + 1).last() == node_v(g.nodes@[k as int]));
        }
        k = k + 1;
        assert(o@ =~= old(o)@ + enc_nodes(ns.take(k as int)));
    }
    assert(ns.take(ns.len() as int) =~= ns);
}

fn write_binding(o: &mut Vec<u8>, node: u32, role: InputRole, name: &str)
    ensures final(o)@ == old(o)@ + enc_binding((node, role, encode_utf8(name@))),
{
    w_u32(o, node);
    let tag: u8 = match role {
        InputRole::Weight => 0,
        InputRole::Runtime => 1,
    };
    w_u8(o, tag);
    w_str(o, name);
    assert(o@ =~= old(o)@ + enc_binding((node, role, encode_utf8(name@))));
}

/// Append one entry table record: name, counted outputs, counted bindings.
fn write_entry(o: &mut Vec<u8>, name: &str, outs: &Vec<u32>, ins: &Vec<(u32, InputRole, &str)>)
    ensures
        final(o)@ == old(o)@ + enc_entry(
            (encode_utf8(name@), outs@, ins@.map_values(|x: (u32, InputRole, &str)| (x.0, x.1, encode_utf8(x.2@)))),
        ),
{
    let ghost bs = ins@.map_values(|x: (u32, InputRole, &str)| (x.0, x.1, encode_utf8(x.2@)));
    w_str(o, name);
    w_u32(o, outs.len() as u32);
    w_ids(o, outs);
    w_u32(o, ins.len() as u32);
    let ghost mid = o@;
    let mut k: usize = 0;
    while k < ins.len()
        invariant
            k <= ins@.len(),
            bs == ins@.map_values(|x: (u32, InputRole, &str)| (x.0, x.1, encode_utf8(x.2@))),
            o@ == mid + enc_bindings(bs.take(k as int)),
        decreases ins@.len() - k,
    {
        let (node, role, nm) = ins[k];
        write_binding(o, node, role, nm);
        proof {
            assert(bs.take(k + 1).drop_last() =~= bs.take(k as int));
            assert(bs.take(k + 1).last() == bs[k as int]);
        }
        k = k + 1;
        assert(o@ =~= mid + enc_bindings(bs.take(k as int)));
    }
    assert(bs.take(bs.len() as int) =~= bs);
    assert(o@ =~= old(o)@ + enc_entry((encode_utf8(name@), outs@, bs)));
}

/// The bindings of `v` as (node, role, name) triples.
fn binding_triples(v: &[InputBinding]) -> (r: Vec<(u32, InputRole, &str)>)
    ensures r@.map_values(|x: (u32, InputRole, &str)| (x.0, x.1, encode_utf8(x.2@))) == bindings_v(v@),
{
    let mut r: Vec<(u32, InputRole, &str)> = Vec::new();
    let mut i: usize = 0;
    while i < v.len()
        invariant
            i <= v@.len(),
            r@.map_values(|x: (u32, InputRole, &str)| (x.0, x.1, encode_utf8(x.2@))) == bindings_v(v@.take(i as int)),
        decreases v@.len() - i,
    {
        let b = &v[i];
        let nm = b.name.as_str();
        let ghost before = r@;
        r.push((b.node.0, b.role, nm));
        proof {
            assert(*b == v@[i as int]);
            assert(nm@ == b.name@);
            assert(v@.take(i + 1) =~= v@.take(i as int).push(v@[i as int]));
            assert(bindings_v(v@.take(i + 1)) =~= bindings_v(v@.take(i as int)).push(binding_v(v@[i as int])));
        }
        i = i + 1;
        assert(r@.map_values(|x: (u32, InputRole, &str)| (x.0, x.1, encode_utf8(x.2@))) =~= bindings_v(v@.take(i as int)));
    }
    assert(v@.take(v@.len() as int) =~= v@);
    r
}

/// Serialize a graph and its output/input bindings into a self-contained blob. The whole
/// node arena is written in id order (ids are preserved); the bindings become the blob's
/// single entry, named "".
#[verifier::spinoff_prover]
pub fn serialize_graph(g: &Graph, outputs: &[NodeId], inputs: &[InputBinding]) -> (r: Vec<u8>)
    ensures r@ == enc_blob(graph_v(*g), seq![(Seq::<u8>::empty(), ids_v(outputs@), bindings_v(inputs@))]),
{
    let ghost es = seq![(Seq::<u8>::empty(), ids_v(outputs@), bindings_v(inputs@))];
    let mut o: Vec<u8> = Vec::new();
    write_header(&mut o, g.nodes.len() as u32);
    assert(o@ =~= magic() + seq![2u8] + le_u32(graph_v(*g).len() as u32));
    write_graph_nodes(&mut o, g);
    w_u32(&mut o, 1);
    let outs = raw_ids(outputs);
    let ins = binding_triples(inputs);
    write_entry(&mut o, "", &outs, &ins);
    proof {
        reveal_strlit("");
        assert(""@.len() == 0);
        assert(encode_utf8(""@) =~= Seq::<u8>::empty());
        lemma_one_entry(es[0]);
        assert(es =~= seq![es[0]]);
    }
    o
}

#[verifier::spinoff_prover]
proof fn lemma_one_entry(e: (Seq<u8>, Seq<u32>, Seq<(u32, InputRole, Seq<u8>)>))
    ensures enc_entries(seq![e]) == enc_entry(e),
{
    let s = seq![e];
    let x = enc_entry(e);
    assert(s.drop_last() =~= Seq::<(Seq<u8>, Seq<u32>, Seq<(u32, InputRole, Seq<u8>)>)>::empty());
    assert(s.last() == e);
    assert(enc_entries(s) == enc_entries(s.drop_last()) + x);
    assert(enc_entries(s.drop_last()) == Seq::<u8>::empty());
    assert(Seq::<u8>::empty() + x =~= x);
}

/// Position of `id` in `order`.
pub open spec fn pos_of(order: Seq<NodeId>, id: NodeId) -> int {
    choose|i: int| 0 <= i < order.len() && order[i] == id
}

/// Ids renumbered to their positions in `order`.
pub open spec fn renumber(order: Seq<NodeId>, v: Seq<NodeId>) -> Seq<u32> {
    v.map_values(|s: NodeId| pos_of(order, s) as u32)
}

/// The nodes listed in `order`, each with its sources renumbered to positions in `order`.
pub open spec fn pruned_v(g: Graph, order: Seq<NodeId>) -> Seq<(Op, Seq<u32>)> {
    order.map_values(|id: NodeId| (g.opn(id), renumber(order, g.srcs(id))))
}

/// The bindings whose node is listed in `order`, renumbered, in their order.
pub open spec fn kept_bindings(order: Seq<NodeId>, v: Seq<InputBinding>) -> Seq<(u32, InputRole, Seq<u8>)>
    decreases v.len(),
{
    if v.len() == 0 {
        Seq::empty()
    } else {
        let prev = kept_bindings(order, v.drop_last());
        let b = v.last();
        if order.contains(b.node) {
            prev.push((pos_of(order, b.node) as u32, b.role, encode_utf8(b.name@)))
        } else {
            prev
        }
    }
}

/// The entry table of a pruned blob: names, renumbered outputs, kept bindings.
pub open spec fn pruned_entries(
    order: Seq<NodeId>,
    es: Seq<(&str, &[NodeId], &[InputBinding])>,
) -> Seq<(Seq<u8>, Seq<u32>, Seq<(u32, InputRole, Seq<u8>)>)> {
    es.map_values(|e: (&str, &[NodeId], &[InputBinding])| (encode_utf8(e.0@), renumber(order, e.1@), kept_bindings(order, e.2@)))
}

/// Every entry's outputs, concatenated.
pub open spec fn all_roots(es: Seq<(&str, &[NodeId], &[InputBinding])>) -> Seq<NodeId>
    decreases es.len(),
{
    if es.len() == 0 { Seq::empty() } else { all_roots(es.drop_last()) + es.last().1@ }
}

proof fn lemma_pos_of(order: Seq<NodeId>, i: int)
    requires ascending(order), 0 <= i < order.len(),
    ensures pos_of(order, order[i]) == i,
{
    let j = pos_of(order, order[i]);
    lemma_ascending_unique(order, i, j);
}

/// For each id below `n`: whether it is listed in `order`, and at which position.
#[verifier::spinoff_prover]
fn index_of(n: usize, order: &Vec<NodeId>) -> (r: (Vec<bool>, Vec<u32>))
    requires ascending(order@), forall|i: int| 0 <= i < order@.len() ==> (#[trigger] order@[i]).0 < n,
        order@.len() <= u32::MAX,
    ensures
        r.0@.len() == n, r.1@.len() == n,
        forall|x: int| 0 <= x < n ==> (#[trigger] r.0@[x] <==> exists|i: int| 0 <= i < order@.len() && order@[i].0 == x),
        forall|i: int| 0 <= i < order@.len() ==> r.1@[(#[trigger] order@[i]).0 as int] == i,
{
    let mut member: Vec<bool> = Vec::new();
    let mut pos: Vec<u32> = Vec::new();
    let mut x: usize = 0;
    while x < n
        invariant x <= n, member@.len() == x, pos@.len() == x, forall|y: int| 0 <= y < x ==> !member@[y],
        decreases n - x,
    {
        member.push(false);
        pos.push(0);
        x = x + 1;
    }
    let mut i: usize = 0;
    while i < order.len()
        invariant
            i <= order@.len(), order@.len() <= u32::MAX, member@.len() == n, pos@.len() == n,
            ascending(order@),
            forall|t: int| 0 <= t < order@.len() ==> (#[trigger] order@[t]).0 < n,
            forall|y: int| 0 <= y < n ==> (#[trigger] member@[y] <==> exists|t: int| 0 <= t < i && order@[t].0 == y),
            forall|t: int| 0 <= t < i ==> pos@[(#[trigger] order@[t]).0 as int] == t,
        decreases order@.len() - i,
    {
        let id = order[i].0 as usize;
        member.set(id, true);
        pos.set(id, i as u32);
        proof {
            assert forall|y: int| 0 <= y < n implies (#[trigger] member@[y] <==> exists|t: int| 0 <= t < i + 1 && order@[t].0 == y) by {
                if y == id {
                    assert(order@[i as int].0 == y);
                } else if exists|t: int| 0 <= t < i + 1 && order@[t].0 == y {
                    let t = choose|t: int| 0 <= t < i + 1 && order@[t].0 == y;
                    assert(t != i);
                }
            }
            assert forall|t: int| 0 <= t < i + 1 implies pos@[(#[trigger] order@[t]).0 as int] == t by {
                if t < i {
                    assert(order@[t].0 < order@[i as int].0);
                }
            }
        }
        i = i + 1;
    }
    (member, pos)
}

/// The ids listed in a cone are node ids, at most one per node.
proof fn lemma_order_bounds(g: Graph, roots: Seq<NodeId>, ord: Seq<NodeId>)
    requires
        g.wf(),
        ascending(ord),
        forall|id: NodeId| ord.contains(id) <==> reaches(g, roots, id),
    ensures
        forall|i: int| 0 <= i < ord.len() ==> (#[trigger] ord[i]).0 < g.nodes@.len(),
        ord.len() <= g.nodes@.len(),
{
    let n = g.nodes@.len();
    assert forall|i: int| 0 <= i < ord.len() implies (#[trigger] ord[i]).0 < n by {
        assert(ord.contains(ord[i]));
        let p = choose|p: Seq<NodeId>| #[trigger] crate::graph::inspect::is_path(g, p) && roots.contains(p[0]) && p.last() == ord[i];
        assert(g.valid(p[p.len() - 1]));
    }
    let m = ord.map_values(|id: NodeId| id.0 as int);
    assert forall|i: int, j: int| 0 <= i < j < m.len() implies m[i] < m[j] by {
        assert(ord[i].0 < ord[j].0);
    }
    assert forall|i: int| 0 <= i < m.len() implies 0 <= #[trigger] m[i] < n by {
        assert(ord[i].0 < n);
    }
    lemma_sorted_len(m, n as int);
}

/// A strictly increasing list of ints in `[0, n)` has at most `n` elements.
proof fn lemma_sorted_len(m: Seq<int>, n: int)
    requires
        n >= 0,
        forall|i: int, j: int| 0 <= i < j < m.len() ==> m[i] < m[j],
        forall|i: int| 0 <= i < m.len() ==> 0 <= #[trigger] m[i] < n,
    ensures m.len() <= n,
    decreases m.len(),
{
    if m.len() > 0 {
        let last = m.last();
        let init = m.drop_last();
        assert forall|i: int, j: int| 0 <= i < j < init.len() implies init[i] < init[j] by {
            assert(init[i] == m[i] && init[j] == m[j]);
        }
        assert forall|i: int| 0 <= i < init.len() implies 0 <= #[trigger] init[i] < last by {
            assert(init[i] == m[i]);
            assert(m[i] < m[m.len() - 1]);
        }
        lemma_sorted_len(init, last);
        assert(0 <= m[m.len() - 1] < n);
    }
}

/// What `index_of` gives for a cone listing.
spec fn index_ok(ord: Seq<NodeId>, n: int, member: Seq<bool>, pos: Seq<u32>) -> bool {
    &&& member.len() == n
    &&& pos.len() == n
    &&& forall|x: int| 0 <= x < n ==> (#[trigger] member[x] <==> exists|i: int| 0 <= i < ord.len() && ord[i].0 == x)
    &&& forall|i: int| 0 <= i < ord.len() ==> pos[(#[trigger] ord[i]).0 as int] == i
}

/// `v` renumbered (every id in `v` is listed in `ord`).
#[verifier::loop_isolation(false)]
#[verifier::spinoff_prover]
fn renumber_ids(v: &[NodeId], pos: &Vec<u32>, Ghost(ord): Ghost<Seq<NodeId>>, Ghost(member): Ghost<Seq<bool>>) -> (r: Vec<u32>)
    requires
        ascending(ord),
        index_ok(ord, pos@.len() as int, member, pos@),
        forall|k: int| 0 <= k < v@.len() ==> ord.contains(#[trigger] v@[k]),
        forall|i: int| 0 <= i < ord.len() ==> (#[trigger] ord[i]).0 < pos@.len(),
    ensures r@ == renumber(ord, v@),
{
    let mut r: Vec<u32> = Vec::new();
    let mut t: usize = 0;
    while t < v.len()
        invariant
            t <= v@.len(),
            r@ == renumber(ord, v@.take(t as int)),
        decreases v@.len() - t,
    {
        let s = v[t];
        proof {
            assert(ord.contains(v@[t as int]));
            let k = choose|k: int| 0 <= k < ord.len() && ord[k] == s;
            lemma_pos_of(ord, k);
        }
        r.push(pos[s.0 as usize]);
        t = t + 1;
        assert(r@ =~= renumber(ord, v@.take(t as int)));
    }
    assert(v@.take(v@.len() as int) =~= v@);
    r
}

/// The bindings of `ins` whose node is listed in `ord`, renumbered.
#[verifier::loop_isolation(false)]
fn kept_triples<'a>(ins: &'a [InputBinding], pos: &Vec<u32>, member: &Vec<bool>, Ghost(ord): Ghost<Seq<NodeId>>)
    -> (r: Vec<(u32, InputRole, &'a str)>)
    requires
        ascending(ord),
        index_ok(ord, pos@.len() as int, member@, pos@),
        forall|i: int| 0 <= i < ord.len() ==> (#[trigger] ord[i]).0 < pos@.len(),
    ensures r@.map_values(|x: (u32, InputRole, &str)| (x.0, x.1, encode_utf8(x.2@))) == kept_bindings(ord, ins@),
{
    let n = pos.len();
    let mut kept: Vec<(u32, InputRole, &str)> = Vec::new();
    let mut t: usize = 0;
    while t < ins.len()
        invariant
            t <= ins@.len(), n == pos@.len(),
            kept@.map_values(|x: (u32, InputRole, &str)| (x.0, x.1, encode_utf8(x.2@))) == kept_bindings(ord, ins@.take(t as int)),
        decreases ins@.len() - t,
    {
        let b = &ins[t];
        let x = b.node.0 as usize;
        proof {
            assert(ins@.take(t + 1).drop_last() =~= ins@.take(t as int));
            assert(ins@.take(t + 1).last() == ins@[t as int]);
            assert(*b == ins@[t as int]);
        }
        if x < n && member[x] {
            let nm = b.name.as_str();
            proof {
                let k = choose|k: int| 0 <= k < ord.len() && ord[k].0 == x;
                assert(ord[k] == b.node);
                assert(ord.contains(b.node));
                lemma_pos_of(ord, k);
            }
            kept.push((pos[x], b.role, nm));
            assert(kept@.map_values(|x: (u32, InputRole, &str)| (x.0, x.1, encode_utf8(x.2@)))
                =~= kept_bindings(ord, ins@.take(t as int)).push((pos_of(ord, b.node) as u32, b.role, encode_utf8(b.name@))));
        } else {
            proof {
                if ord.contains(b.node) {
                    let k = choose|k: int| 0 <= k < ord.len() && ord[k] == b.node;
                    assert(ord[k].0 < n);
                }
            }
        }
        t = t + 1;
    }
    assert(ins@.take(ins@.len() as int) =~= ins@);
    kept
}

/// Append the nodes listed in `order`, sources renumbered.
#[verifier::loop_isolation(false)]
#[verifier::spinoff_prover]
fn write_pruned_nodes(o: &mut Vec<u8>, g: &Graph, roots: Ghost<Seq<NodeId>>, order: &Vec<NodeId>, pos: &Vec<u32>, member: Ghost<Seq<bool>>)
    requires
        g.wf(),
        ascending(order@),
        forall|id: NodeId| order@.contains(id) <==> reaches(*g, roots@, id),
        index_ok(order@, g.nodes@.len() as int, member@, pos@),
        forall|i: int| 0 <= i < order@.len() ==> (#[trigger] order@[i]).0 < g.nodes@.len(),
    ensures final(o)@ == old(o)@ + enc_nodes(pruned_v(*g, order@)),
{
    let ghost ord = order@;
    let ghost ns = pruned_v(*g, ord);
    let mut i: usize = 0;
    while i < order.len()
        invariant
            i <= ord.len(), order@ == ord, ns == pruned_v(*g, ord),
            o@ == old(o)@ + enc_nodes(ns.take(i as int)),
        decreases ord.len() - i,
    {
        let id = order[i];
        let node = &g.nodes[id.0 as usize];
        proof {
            assert(crate::graph::infer::node_wf(g.nodes@, id.0 as int));
            assert(ord.contains(id)) by { assert(ord[i as int] == id); }
            assert forall|k: int| 0 <= k < node.src@.len() implies ord.contains(#[trigger] node.src@[k]) by {
                let s = node.src@[k];
                assert(g.srcs(id).contains(s)) by { assert(g.srcs(id)[k] == s); }
                lemma_reach_src(*g, roots@, id, s);
            }
        }
        let ids = renumber_ids(node.src.as_slice(), pos, Ghost(ord), member);
        write_node(o, &node.op, &ids);
        proof {
            assert(ns.take(i + 1).drop_last() =~= ns.take(i as int));
            assert(ns.take(i + 1).last() == ns[i as int]);
        }
        i = i + 1;
        assert(o@ =~= old(o)@ + enc_nodes(ns.take(i as int)));
    }
    assert(ns.take(ns.len() as int) =~= ns);
}

/// Append the entry table over the renumbered ids.
#[verifier::loop_isolation(false)]
#[verifier::spinoff_prover]
fn write_pruned_entries(o: &mut Vec<u8>, order: &Vec<NodeId>, pos: &Vec<u32>, member: &Vec<bool>, entries: &[(&str, &[NodeId], &[InputBinding])])
    requires
        ascending(order@),
        index_ok(order@, pos@.len() as int, member@, pos@),
        forall|i: int| 0 <= i < order@.len() ==> (#[trigger] order@[i]).0 < pos@.len(),
        forall|e: int, k: int| 0 <= e < entries@.len() && 0 <= k < entries@[e].1@.len()
            ==> order@.contains(#[trigger] entries@[e].1@[k]),
    ensures final(o)@ == old(o)@ + le_u32(entries@.len() as u32) + enc_entries(pruned_entries(order@, entries@)),
{
    let ghost ord = order@;
    w_u32(o, entries.len() as u32);
    let ghost es = pruned_entries(ord, entries@);
    let ghost mid = o@;
    let mut e: usize = 0;
    while e < entries.len()
        invariant
            e <= entries@.len(), order@ == ord, es == pruned_entries(ord, entries@),
            o@ == mid + enc_entries(es.take(e as int)),
        decreases entries@.len() - e,
    {
        let (name, outs, ins) = entries[e];
        proof {
            assert forall|k: int| 0 <= k < outs@.len() implies ord.contains(#[trigger] outs@[k]) by {
                assert(entries@[e as int].1@[k] == outs@[k]);
            }
        }
        let oids = renumber_ids(outs, pos, Ghost(ord), Ghost(member@));
        let kept = kept_triples(ins, pos, member, Ghost(ord));
        write_entry(o, name, &oids, &kept);
        proof {
            assert(es.take(e + 1).drop_last() =~= es.take(e as int));
            assert(es.take(e + 1).last() == es[e as int]);
        }
        e = e + 1;
        assert(o@ =~= mid + enc_entries(es.take(e as int)));
    }
    assert(es.take(es.len() as int) =~= es);
}

/// Prune to the cone of `roots`, renumber densely (ascending ids), and write each entry
/// over the renumbered ids; a binding whose node is outside the cone is dropped.
#[verifier::spinoff_prover]
fn write_reachable(g: &Graph, roots: &Vec<NodeId>, entries: &[(&str, &[NodeId], &[InputBinding])]) -> (r: Vec<u8>)
    requires
        g.wf(),
        forall|k: int| 0 <= k < roots@.len() ==> g.valid(#[trigger] roots@[k]),
        forall|e: int, k: int| 0 <= e < entries@.len() && 0 <= k < entries@[e].1@.len()
            ==> reaches(*g, roots@, #[trigger] entries@[e].1@[k]),
    ensures
        exists|order: Seq<NodeId>| ascending(order) && order.to_set() == reach_set(*g, roots@)
            && r@ == enc_blob(pruned_v(*g, order), pruned_entries(order, entries@)),
{
    let order = reachable_multi(g, roots.as_slice());
    let n = g.nodes.len();
    proof { lemma_order_bounds(*g, roots@, order@); }
    let (member, pos) = index_of(n, &order);
    let mut o: Vec<u8> = Vec::new();
    write_header(&mut o, order.len() as u32);
    assert(o@ =~= magic() + seq![2u8] + le_u32(pruned_v(*g, order@).len() as u32));
    write_pruned_nodes(&mut o, g, Ghost(roots@), &order, &pos, Ghost(member@));
    write_pruned_entries(&mut o, &order, &pos, &member, entries);
    assert(o@ =~= enc_blob(pruned_v(*g, order@), pruned_entries(order@, entries@)));
    o
}

/// Serialize only the nodes reachable from `outputs`, renumbered densely in ascending id
/// order (each node after its sources). Arena nodes no output depends on are dropped, and
/// so are input bindings whose node is unreachable; the bindings become the single entry "".
#[verifier::spinoff_prover]
pub fn serialize_reachable(g: &Graph, outputs: &[NodeId], inputs: &[InputBinding]) -> (r: Vec<u8>)
    requires g.wf(), forall|k: int| 0 <= k < outputs@.len() ==> g.valid(#[trigger] outputs@[k]),
    ensures
        exists|order: Seq<NodeId>| ascending(order) && order.to_set() == reach_set(*g, outputs@)
            && r@ == enc_blob(
                pruned_v(*g, order),
                seq![(Seq::<u8>::empty(), renumber(order, outputs@), kept_bindings(order, inputs@))],
            ),
{
    let mut roots: Vec<NodeId> = Vec::new();
    let mut i: usize = 0;
    while i < outputs.len()
        invariant i <= outputs@.len(), roots@ == outputs@.take(i as int),
        decreases outputs@.len() - i,
    {
        roots.push(outputs[i]);
        i = i + 1;
        assert(roots@ =~= outputs@.take(i as int));
    }
    assert(roots@ =~= outputs@);
    let entries: Vec<(&str, &[NodeId], &[InputBinding])> = vec![("", outputs, inputs)];
    proof {
        assert forall|e: int, k: int| 0 <= e < entries@.len() && 0 <= k < entries@[e].1@.len()
            implies reaches(*g, roots@, #[trigger] entries@[e].1@[k]) by {
            lemma_root_reaches(*g, roots@, k);
        }
    }
    let r = write_reachable(g, &roots, entries.as_slice());
    proof {
        reveal_strlit("");
        assert(""@.len() == 0);
        assert(encode_utf8(""@) =~= Seq::<u8>::empty());
        let order = choose|order: Seq<NodeId>| ascending(order) && order.to_set() == reach_set(*g, roots@)
            && r@ == enc_blob(pruned_v(*g, order), pruned_entries(order, entries@));
        assert(pruned_entries(order, entries@) =~= seq![(Seq::<u8>::empty(), renumber(order, outputs@), kept_bindings(order, inputs@))]);
    }
    r
}

/// Serialize N named entries sharing one arena: prune to the union of every entry's output
/// cone, renumber once, then write each entry's renumbered outputs and kept bindings.
#[verifier::spinoff_prover]
pub fn serialize_multi(g: &Graph, entries: &[(&str, &[NodeId], &[InputBinding])]) -> (r: Vec<u8>)
    requires
        g.wf(),
        forall|e: int, k: int| 0 <= e < entries@.len() && 0 <= k < entries@[e].1@.len() ==> g.valid(#[trigger] entries@[e].1@[k]),
    ensures
        exists|order: Seq<NodeId>| ascending(order) && order.to_set() == reach_set(*g, all_roots(entries@))
            && r@ == enc_blob(pruned_v(*g, order), pruned_entries(order, entries@)),
{
    let mut roots: Vec<NodeId> = Vec::new();
    let mut e: usize = 0;
    while e < entries.len()
        invariant
            e <= entries@.len(),
            forall|a: int, k: int| 0 <= a < entries@.len() && 0 <= k < entries@[a].1@.len() ==> g.valid(#[trigger] entries@[a].1@[k]),
            roots@ == all_roots(entries@.take(e as int)),
            forall|x: int| 0 <= x < roots@.len() ==> g.valid(#[trigger] roots@[x]),
            forall|a: int, k: int| 0 <= a < e && 0 <= k < entries@[a].1@.len() ==> roots@.contains(#[trigger] entries@[a].1@[k]),
        decreases entries@.len() - e,
    {
        let outs = entries[e].1;
        let ghost before = roots@;
        let mut i: usize = 0;
        while i < outs.len()
            invariant
                i <= outs@.len(), outs@ == entries@[e as int].1@, e < entries@.len(),
                forall|a: int, k: int| 0 <= a < entries@.len() && 0 <= k < entries@[a].1@.len() ==> g.valid(#[trigger] entries@[a].1@[k]),
                roots@ == before + outs@.take(i as int),
                forall|x: int| 0 <= x < roots@.len() ==> g.valid(#[trigger] roots@[x]),
            decreases outs@.len() - i,
        {
            assert(g.valid(entries@[e as int].1@[i as int]));
            roots.push(outs[i]);
            i = i + 1;
            assert(roots@ =~= before + outs@.take(i as int));
        }
        proof {
            assert(outs@.take(outs@.len() as int) =~= outs@);
            assert(entries@.take(e + 1).drop_last() =~= entries@.take(e as int));
            assert(entries@.take(e + 1).last() == entries@[e as int]);
            assert forall|a: int, k: int| 0 <= a < e + 1 && 0 <= k < entries@[a].1@.len()
                implies roots@.contains(#[trigger] entries@[a].1@[k]) by {
                if a < e {
                    let x = choose|x: int| 0 <= x < before.len() && before[x] == entries@[a].1@[k];
                    assert(roots@[x] == before[x]);
                } else {
                    assert(roots@[before.len() + k] == outs@[k]);
                }
            }
        }
        e = e + 1;
    }
    assert(entries@.take(entries@.len() as int) =~= entries@);
    proof {
        assert forall|a: int, k: int| 0 <= a < entries@.len() && 0 <= k < entries@[a].1@.len()
            implies reaches(*g, roots@, #[trigger] entries@[a].1@[k]) by {
            let x = choose|x: int| 0 <= x < roots@.len() && roots@[x] == entries@[a].1@[k];
            lemma_root_reaches(*g, roots@, x);
        }
    }
    write_reachable(g, &roots, entries)
}

} // verus!
