use kurumi_core::{
    deserialize_graph, deserialize_multi, serialize_graph, serialize_multi, serialize_reachable, ArgKind, DType, Graph,
    InputBinding, InputRole, NodeId, Op, ScatterOp, Storage,
};
use kurumi_core::graph::serialize::decode::{read_op, Reader};
use kurumi_core::graph::serialize::encode::write_op;

fn f32_storage(v: &[f32]) -> Storage {
    let mut b = Vec::new();
    for x in v {
        b.extend_from_slice(&x.to_le_bytes());
    }
    Storage::new(DType::F32, b)
}

fn all_ops() -> Vec<Op> {
    vec![
        Op::Const { data: f32_storage(&[1.5, -2.5]), shape: vec![2] },
        Op::Input { shape: vec![2, 3], dtype: DType::F32 },
        Op::Iota { shape: vec![4], axis: 0, dtype: DType::I64 },
        Op::RandUniform { shape: vec![2, 2] },
        Op::Cast { to: DType::F16 },
        Op::Bitcast { to: DType::U32 },
        Op::Detach,
        Op::Add,
        Op::Mul,
        Op::Max,
        Op::Neg,
        Op::IDiv,
        Op::And,
        Op::Or,
        Op::Xor,
        Op::Shl,
        Op::Shr,
        Op::CmpLt,
        Op::CmpEq,
        Op::Where,
        Op::Recip,
        Op::Sqrt,
        Op::Exp2,
        Op::Log2,
        Op::Sin,
        Op::Floor,
        Op::Sum { axis: 1 },
        Op::Prod { axis: 0 },
        Op::ReduceMax { axis: 2 },
        Op::ArgReduce { axis: 1, kind: ArgKind::Min },
        Op::Softmax { axis: 0 },
        Op::RmsNorm { axis: 1, eps_bits: 1e-5f32.to_bits() },
        Op::Sdpa { causal: true },
        Op::Reshape { shape: vec![6] },
        Op::Permute { perm: vec![1, 0] },
        Op::Expand { shape: vec![2, 3, 4] },
        Op::Slice { ranges: vec![(0, 2, 1), (1, 3, 2)] },
        Op::Flip { axes: vec![0, 2] },
        Op::Pad { pads: vec![(1, 1), (0, 2)] },
        Op::DotGeneral { lhs_contract: vec![1], rhs_contract: vec![0], lhs_batch: vec![], rhs_batch: vec![] },
        Op::QuantMatmul { bits: 4, group_size: 64, symmetric: false },
        Op::Solve,
        Op::Det,
        Op::Cholesky,
        Op::Eigh,
        Op::Qr { r_factor: true },
        Op::Eigvals,
        Op::Complex,
        Op::Real,
        Op::Imag,
        Op::Gather { axis: 0 },
        Op::Scatter { axis: 1, combine: ScatterOp::Add },
        Op::GatherAlong { axis: 2 },
        Op::ScatterAlong { axis: 0, combine: ScatterOp::Max },
        Op::Argsort { axis: 1, descending: true },
    ]
}

#[test]
fn every_op_round_trips() {
    let ops = all_ops();
    assert_eq!(ops.len(), 55, "all 55 op variants must be covered");
    for op in &ops {
        let mut buf = Vec::new();
        write_op(&mut buf, op);
        let mut r = Reader::new(&buf);
        let back = read_op(&mut r).expect("decode");
        assert_eq!(r.pos, buf.len(), "trailing bytes for {op:?}");
        assert_eq!(format!("{op:?}"), format!("{back:?}"));
    }
}

fn small_graph() -> (Graph, NodeId, NodeId, NodeId) {
    let mut g = Graph::new();
    let x = g.input(vec![2, 3], DType::F32);
    let w = g.const_storage(f32_storage(&[2.0; 6]), vec![2, 3]);
    let a = g.push(Op::Add, vec![x, w]);
    let m = g.push(Op::Mul, vec![a, w]);
    let out = g.push(Op::Sum { axis: 1 }, vec![m]);
    (g, x, a, out)
}

#[test]
fn graph_blob_round_trips() {
    let (g, x, _a, out) = small_graph();
    let outputs = vec![out];
    let inputs = vec![InputBinding { node: x, role: InputRole::Runtime, name: "x".into() }];
    let blob = serialize_graph(&g, &outputs, &inputs);
    let r = deserialize_graph(&blob).expect("deserialize");
    assert_eq!(r.outputs, outputs);
    assert_eq!(r.inputs, inputs);
    assert_eq!(r.graph.num_nodes(), g.num_nodes());
    assert_eq!(r.graph.shape(out), vec![2]);
    assert_eq!(r.graph.dtype(out), DType::F32);
    // replay is id-preserving: re-serializing the rebuilt graph gives the same bytes.
    assert_eq!(serialize_graph(&r.graph, &r.outputs, &r.inputs), blob);
}

#[test]
fn blob_header_layout() {
    let mut g = Graph::new();
    let _x = g.input(vec![3], DType::I32);
    let blob = serialize_graph(&g, &[], &[]);
    let mut want: Vec<u8> = b"KGPH\x02".to_vec();
    want.extend_from_slice(&1u32.to_le_bytes());
    want.push(1); // Op::Input
    want.extend_from_slice(&1u32.to_le_bytes());
    want.extend_from_slice(&3u64.to_le_bytes());
    want.push(7); // I32
    want.extend_from_slice(&0u32.to_le_bytes()); // no sources
    want.extend_from_slice(&1u32.to_le_bytes()); // one entry
    want.extend_from_slice(&0u32.to_le_bytes()); // name ""
    want.extend_from_slice(&0u32.to_le_bytes()); // no outputs
    want.extend_from_slice(&0u32.to_le_bytes()); // no inputs
    assert_eq!(blob, want);
}

#[test]
fn reachable_prunes_dead_nodes() {
    let mut g = Graph::new();
    let x = g.input(vec![2, 3], DType::F32);
    let w = g.const_storage(f32_storage(&[2.0; 6]), vec![2, 3]);
    let _dead = g.push(Op::Neg, vec![w]);
    let a = g.push(Op::Add, vec![x, w]);
    let out = g.push(Op::Sum { axis: 1 }, vec![a]);
    let outputs = vec![out];
    let inputs = vec![InputBinding { node: x, role: InputRole::Runtime, name: "x".into() }];
    let full = serialize_graph(&g, &outputs, &inputs);
    let pruned = serialize_reachable(&g, &outputs, &inputs);
    assert!(pruned.len() < full.len(), "the dead Neg node must be dropped");
    let r = deserialize_graph(&pruned).expect("deserialize");
    assert_eq!(r.graph.num_nodes(), 4);
    assert_eq!(r.inputs.len(), 1);
    assert_eq!(r.inputs[0].name, "x");
    assert_eq!(r.outputs, vec![NodeId(3)]);
    assert_eq!(r.graph.shape(r.outputs[0]), vec![2]);
}

#[test]
fn reachable_drops_unreachable_bindings() {
    let mut g = Graph::new();
    let x = g.input(vec![2], DType::F32);
    let y = g.input(vec![2], DType::F32);
    let out = g.push(Op::Neg, vec![x]);
    let inputs = vec![
        InputBinding { node: y, role: InputRole::Weight, name: "y".into() },
        InputBinding { node: x, role: InputRole::Runtime, name: "x".into() },
    ];
    let blob = serialize_reachable(&g, &[out], &inputs);
    let r = deserialize_graph(&blob).unwrap();
    assert_eq!(r.graph.num_nodes(), 2);
    assert_eq!(r.inputs, vec![InputBinding { node: NodeId(0), role: InputRole::Runtime, name: "x".into() }]);
    assert_eq!(r.outputs, vec![NodeId(1)]);
}

#[test]
fn multi_entry_round_trips() {
    let mut g = Graph::new();
    let x = g.input(vec![2, 3], DType::F32);
    let w = g.const_storage(f32_storage(&[2.0; 6]), vec![2, 3]);
    let a = g.push(Op::Add, vec![x, w]);
    let fwd = g.push(Op::Sum { axis: 1 }, vec![a]);
    let scaled = g.push(Op::Mul, vec![a, w]);
    let bwd = g.push(Op::Sum { axis: 1 }, vec![scaled]);
    let fwd_in = vec![InputBinding { node: x, role: InputRole::Runtime, name: "x".into() }];
    let bwd_in = vec![
        InputBinding { node: x, role: InputRole::Runtime, name: "x".into() },
        InputBinding { node: a, role: InputRole::Weight, name: "a".into() },
    ];
    let fo = [fwd];
    let bo = [bwd];
    let blob = serialize_multi(&g, &[("forward", &fo, &fwd_in), ("forward_backward", &bo, &bwd_in)]);
    let mr = deserialize_multi(&blob).expect("deserialize_multi");
    assert_eq!(mr.entries.len(), 2);
    assert_eq!(mr.entries[0].name, "forward");
    assert_eq!(mr.entries[1].name, "forward_backward");
    assert_eq!(mr.entries[0].inputs.len(), 1);
    assert_eq!(mr.entries[1].inputs.len(), 2);
    assert_eq!(mr.entries[1].inputs[1].name, "a");
    assert_eq!(mr.entries[1].inputs[1].role, InputRole::Weight);
    let x_node = mr.entries[0].inputs[0].node;
    assert_eq!(mr.entries[1].inputs[0].node, x_node);
    assert_eq!(mr.graph.shape(mr.entries[0].outputs[0]), vec![2]);
    assert_eq!(mr.graph.shape(mr.entries[1].outputs[0]), vec![2]);
    let r = deserialize_graph(&blob).expect("deserialize_graph");
    assert_eq!(r.outputs, mr.entries[0].outputs);
    assert_eq!(r.inputs, mr.entries[0].inputs);
}

#[test]
fn rejects_bad_magic() {
    assert!(deserialize_graph(b"XXXX\x01").is_err());
    assert!(deserialize_graph(&[]).is_err());
}

#[test]
fn rejects_forward_src_ref() {
    let mut b = b"KGPH\x02".to_vec();
    b.extend_from_slice(&1u32.to_le_bytes());
    b.push(7);
    b.extend_from_slice(&1u32.to_le_bytes());
    b.extend_from_slice(&0u32.to_le_bytes());
    assert!(deserialize_graph(&b).is_err(), "a self/forward src ref must be a clean error");
}

#[test]
fn rejects_const_payload_underfill() {
    let mut b = b"KGPH\x02".to_vec();
    b.extend_from_slice(&1u32.to_le_bytes());
    b.push(0);
    b.push(13);
    b.extend_from_slice(&4u64.to_le_bytes());
    b.extend_from_slice(&1.0f32.to_le_bytes());
    b.extend_from_slice(&1u32.to_le_bytes());
    b.extend_from_slice(&2u64.to_le_bytes());
    assert!(deserialize_graph(&b).is_err(), "a Const underfilling its shape must be a clean error");
}

#[test]
fn rejects_bad_version_and_truncation() {
    let (g, x, _a, out) = small_graph();
    let blob = serialize_graph(&g, &[out], &[InputBinding { node: x, role: InputRole::Runtime, name: "x".into() }]);
    let mut v = blob.clone();
    v[4] = 1;
    assert!(deserialize_graph(&v).is_err());
    for cut in 0..blob.len() {
        assert!(deserialize_graph(&blob[..cut]).is_err(), "a blob cut at {cut} must be an error");
    }
    let mut bad_role = blob.clone();
    let n = bad_role.len();
    // the role byte sits before the binding's 4-byte length and 1-byte name "x"
    bad_role[n - 6] = 9;
    assert!(deserialize_graph(&bad_role).is_err());
}

#[test]
fn rejects_unknown_tags_and_bad_utf8() {
    let mut b = b"KGPH\x02".to_vec();
    b.extend_from_slice(&1u32.to_le_bytes());
    b.push(55); // no such op
    b.extend_from_slice(&0u32.to_le_bytes());
    b.extend_from_slice(&0u32.to_le_bytes());
    assert!(deserialize_multi(&b).is_err());
    let mut e = b"KGPH\x02".to_vec();
    e.extend_from_slice(&0u32.to_le_bytes());
    e.extend_from_slice(&1u32.to_le_bytes());
    e.extend_from_slice(&1u32.to_le_bytes());
    e.push(0xff); // not UTF-8
    e.extend_from_slice(&0u32.to_le_bytes());
    e.extend_from_slice(&0u32.to_le_bytes());
    assert!(deserialize_multi(&e).is_err());
    e[17] = b'f';
    let m = deserialize_multi(&e).unwrap();
    assert_eq!(m.entries[0].name, "f");
}

#[test]
fn graph_with_no_entries_is_refused_by_deserialize_graph() {
    let mut b = b"KGPH\x02".to_vec();
    b.extend_from_slice(&0u32.to_le_bytes());
    b.extend_from_slice(&0u32.to_le_bytes());
    assert!(deserialize_multi(&b).is_ok());
    assert!(deserialize_graph(&b).is_err());
}
