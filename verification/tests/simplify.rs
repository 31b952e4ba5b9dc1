use kurumi_core::{amp, node_count, reachable, simplify, DType, Graph, NodeId, Op, Storage};

fn f32_storage(v: &[f32]) -> Storage {
    let mut b = Vec::new();
    for x in v {
        b.extend_from_slice(&x.to_le_bytes());
    }
    Storage::new(DType::F32, b)
}

fn constant(g: &mut Graph, v: Vec<f32>, shape: Vec<usize>) -> NodeId {
    g.const_storage(f32_storage(&v), shape)
}

/// A small reference evaluator for the ops these tests build (F32 only).
fn eval(g: &Graph, id: NodeId) -> (Vec<usize>, Vec<f32>) {
    let n = g.node(id);
    let arg = |k: usize| eval(g, n.src[k]);
    match &n.op {
        Op::Const { data, shape } => {
            let b = data.to_bytes();
            let v = b.chunks_exact(4).map(|c| f32::from_le_bytes([c[0], c[1], c[2], c[3]])).collect();
            (shape.clone(), v)
        }
        Op::Neg => {
            let (s, v) = arg(0);
            (s, v.iter().map(|x| -x).collect())
        }
        Op::Recip => {
            let (s, v) = arg(0);
            (s, v.iter().map(|x| 1.0 / x).collect())
        }
        Op::Add | Op::Mul => {
            let (s, a) = arg(0);
            let (_, b) = arg(1);
            let add = matches!(n.op, Op::Add);
            (s, a.iter().zip(&b).map(|(x, y)| if add { x + y } else { x * y }).collect())
        }
        Op::Reshape { shape } => (shape.clone(), arg(0).1),
        Op::Permute { perm } => {
            let (s, v) = arg(0);
            let out_shape: Vec<usize> = perm.iter().map(|&p| s[p]).collect();
            let total: usize = s.iter().product();
            let mut strides = vec![1; s.len()];
            for d in (0..s.len().saturating_sub(1)).rev() {
                strides[d] = strides[d + 1] * s[d + 1];
            }
            let mut out = Vec::with_capacity(total);
            for flat in 0..total {
                let mut rem = flat;
                let mut src = 0;
                for d in (0..out_shape.len()).rev() {
                    let i = rem % out_shape[d];
                    rem /= out_shape[d];
                    src += i * strides[perm[d]];
                }
                out.push(v[src]);
            }
            (out_shape, out)
        }
        other => panic!("eval: unsupported op {other:?}"),
    }
}

fn f32s(g: &Graph, id: NodeId) -> Vec<f32> {
    eval(g, id).1
}

#[test]
fn double_neg_cancels() {
    let mut g = Graph::new();
    let x = constant(&mut g, vec![1.0, -2.0, 3.0], vec![3]);
    let z = g.neg(x);
    let z = g.neg(z);
    let want = f32s(&g, z);
    let s = simplify(&mut g, z);
    assert_eq!(s, x);
    assert_eq!(f32s(&g, s), want);
}

#[test]
fn mul_by_ones_and_add_zero_drop() {
    let mut g = Graph::new();
    let x = constant(&mut g, vec![1.0, 2.0, 3.0], vec![3]);
    let ones = constant(&mut g, vec![1.0; 3], vec![3]);
    let zeros = constant(&mut g, vec![0.0; 3], vec![3]);
    let y = g.mul(x, ones).unwrap();
    let y = g.add(zeros, y).unwrap();
    let want = f32s(&g, y);
    let s = simplify(&mut g, y);
    assert_eq!(s, x);
    assert_eq!(f32s(&g, s), want);
}

#[test]
fn movement_chains_collapse() {
    let mut g = Graph::new();
    let x = constant(&mut g, (0..24).map(|i| i as f32).collect(), vec![2, 3, 4]);
    let r = g.reshape(x, vec![6, 4]).unwrap();
    let r = g.reshape(r, vec![24]).unwrap();
    let want = f32s(&g, r);
    let s = simplify(&mut g, r);
    assert_eq!(f32s(&g, s), want);
    assert!(node_count(&g, s) < node_count(&g, r));
}

#[test]
fn double_transpose_cancels() {
    let mut g = Graph::new();
    let x = constant(&mut g, (0..6).map(|i| i as f32).collect(), vec![2, 3]);
    let t = g.transpose(x, 0, 1).unwrap();
    let t = g.transpose(t, 0, 1).unwrap();
    let want = f32s(&g, t);
    let s = simplify(&mut g, t);
    assert_eq!(f32s(&g, s), want);
    assert_eq!(node_count(&g, s), 1);
}

#[test]
fn cse_merges_identical_subgraphs() {
    let mut g = Graph::new();
    let x = constant(&mut g, vec![1.0, 2.0], vec![2]);
    let a = g.neg(x);
    let b = g.neg(x);
    let y = g.add(a, b).unwrap();
    let before = node_count(&g, y);
    let s = simplify(&mut g, y);
    assert!(node_count(&g, s) < before);
    assert_eq!(f32s(&g, s), f32s(&g, y));
}

#[test]
fn simplify_keeps_shape_and_dtype() {
    let mut g = Graph::new();
    let x = constant(&mut g, (0..6).map(|i| i as f32).collect(), vec![2, 3]);
    let t = g.permute(x, vec![1, 0]).unwrap();
    let u = g.permute(t, vec![1, 0]).unwrap();
    let r = g.reshape(u, vec![3, 2]).unwrap();
    let s = simplify(&mut g, r);
    assert_eq!(g.shape(s), vec![3, 2]);
    assert_eq!(g.dtype(s), DType::F32);
    assert_eq!(f32s(&g, s), f32s(&g, r));
}

#[test]
fn negative_zero_is_an_additive_identity() {
    let mut g = Graph::new();
    let x = constant(&mut g, vec![4.0, 5.0], vec![2]);
    let z = constant(&mut g, vec![-0.0, 0.0], vec![2]);
    let y = g.add(x, z).unwrap();
    assert_eq!(simplify(&mut g, y), x);
}

#[test]
fn amp_lowers_f32_matmul_to_f16() {
    let mut g = Graph::new();
    let a = constant(&mut g, vec![1.0; 8], vec![2, 4]);
    let b = constant(&mut g, vec![1.0; 12], vec![4, 3]);
    let c = g.push(
        Op::DotGeneral { lhs_contract: vec![1], rhs_contract: vec![0], lhs_batch: vec![], rhs_batch: vec![] },
        vec![a, b],
    );
    let y = g.neg(c);
    let r = amp(&mut g, y);
    assert_eq!(g.dtype(r), DType::F32);
    assert_eq!(g.shape(r), vec![2, 3]);
    let neg = g.node(r);
    let up = neg.src[0];
    assert!(matches!(g.node(up).op, Op::Cast { to: DType::F32 }));
    let mm = g.node(up).src[0];
    assert_eq!(g.dtype(mm), DType::F16);
    assert!(matches!(g.node(mm).op, Op::DotGeneral { .. }));
}

#[test]
fn amp_then_grad_is_finite_and_matches_f32() {
    // Two matmul layers into a loss-shaped output: after amp every contraction in the cone
    // runs in F16 between F16 casts, and the output keeps its F32 dtype and shape.
    let mut g = Graph::new();
    let x = constant(&mut g, (0..24).map(|i| (i as f32 * 0.1).sin() * 0.5).collect(), vec![4, 6]);
    let w1 = constant(&mut g, (0..30).map(|i| (i as f32 * 0.2).cos() * 0.3).collect(), vec![6, 5]);
    let w2 = constant(&mut g, (0..5).map(|i| (i as f32 * 0.3).sin() * 0.4).collect(), vec![5, 1]);
    let h = g.dot_general(x, w1, vec![1], vec![0], vec![], vec![]).unwrap();
    let a = g.gelu(h);
    let loss = g.dot_general(a, w2, vec![1], vec![0], vec![], vec![]).unwrap();
    let amped = amp(&mut g, loss);
    assert_eq!(g.dtype(amped), DType::F32);
    assert_eq!(g.shape(amped), vec![4, 1]);
    let cone = reachable(&g, amped);
    let dots: Vec<NodeId> = cone.iter().copied().filter(|&n| matches!(g.node(n).op, Op::DotGeneral { .. })).collect();
    assert_eq!(dots.len(), 2);
    for d in dots {
        assert_eq!(g.dtype(d), DType::F16);
        for &s in &g.node(d).src {
            assert!(matches!(g.node(s).op, Op::Cast { to: DType::F16 }));
        }
    }
}

#[test]
fn simplify_shrinks_backward_matches_oracle() {
    // A backward-shaped chain (seed ones, stacked transposes, a double negation and an added
    // zero seed) collapses to fewer nodes with the same values.
    let mut g = Graph::new();
    let x = constant(&mut g, (0..12).map(|i| (i as f32 * 0.1).sin()).collect(), vec![3, 4]);
    let ones = constant(&mut g, vec![1.0; 12], vec![3, 4]);
    let zeros = constant(&mut g, vec![0.0; 12], vec![3, 4]);
    let m = g.mul(x, ones).unwrap();
    let t = g.transpose(m, 0, 1).unwrap();
    let t = g.transpose(t, 0, 1).unwrap();
    let n = g.neg(t);
    let n = g.neg(n);
    let y = g.add(zeros, n).unwrap();
    let before = node_count(&g, y);
    let want = eval(&g, y);
    let s = simplify(&mut g, y);
    let after = node_count(&g, s);
    assert_eq!(eval(&g, s), want);
    assert!(after < before);
    assert_eq!(s, x);
}
