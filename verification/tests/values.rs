use kurumi_core::{DType, Graph, NodeId, Op, Storage};

fn f32_storage(v: &[f32]) -> Storage {
    let mut b = Vec::new();
    for x in v {
        b.extend_from_slice(&x.to_le_bytes());
    }
    Storage::new(DType::F32, b)
}

fn constant(g: &mut Graph, v: Vec<f32>, shape: Vec<usize>) -> NodeId {
    g.const_storage(f32_storage(&v), shape)
}

fn strides(s: &[usize]) -> Vec<usize> {
    let mut st = vec![1; s.len()];
    for d in (0..s.len().saturating_sub(1)).rev() {
        st[d] = st[d + 1] * s[d + 1];
    }
    st
}

fn unflatten(mut flat: usize, s: &[usize]) -> Vec<usize> {
    let mut idx = vec![0; s.len()];
    for d in (0..s.len()).rev() {
        idx[d] = flat % s[d];
        flat /= s[d];
    }
    idx
}

/// A small reference evaluator (values held as f64) for the ops these tests build.
fn eval(g: &Graph, id: NodeId) -> (Vec<usize>, Vec<f64>) {
    let n = g.node(id);
    let arg = |k: usize| eval(g, n.src[k]);
    match &n.op {
        Op::Const { data, shape } => {
            let b = data.to_bytes();
            let v = match data.dtype() {
                DType::F32 => b.chunks_exact(4).map(|c| f32::from_le_bytes([c[0], c[1], c[2], c[3]]) as f64).collect(),
                DType::I64 => b.chunks_exact(8).map(|c| i64::from_le_bytes(c.try_into().unwrap()) as f64).collect(),
                other => panic!("eval: constant of {other:?}"),
            };
            (shape.clone(), v)
        }
        Op::Cast { .. } => arg(0),
        Op::Neg => {
            let (s, v) = arg(0);
            (s, v.iter().map(|x| -x).collect())
        }
        Op::Recip => {
            let (s, v) = arg(0);
            (s, v.iter().map(|x| (1.0 / *x as f32) as f64).collect())
        }
        Op::Sqrt => {
            let (s, v) = arg(0);
            (s, v.iter().map(|x| (*x as f32).sqrt() as f64).collect())
        }
        Op::Add | Op::Mul => {
            let (s, a) = arg(0);
            let (_, b) = arg(1);
            let add = matches!(n.op, Op::Add);
            (s, a.iter().zip(&b).map(|(x, y)| if add { x + y } else { x * y }).collect())
        }
        Op::CmpLt => {
            let (s, a) = arg(0);
            let (_, b) = arg(1);
            (s, a.iter().zip(&b).map(|(x, y)| if x < y { 1.0 } else { 0.0 }).collect())
        }
        Op::Where => {
            let (_, c) = arg(0);
            let (s, a) = arg(1);
            let (_, b) = arg(2);
            (s, (0..a.len()).map(|i| if c[i] != 0.0 { a[i] } else { b[i] }).collect())
        }
        Op::Reshape { shape } => (shape.clone(), arg(0).1),
        Op::Expand { shape } => {
            let (s, v) = arg(0);
            let st = strides(&s);
            let total: usize = shape.iter().product();
            let out = (0..total)
                .map(|f| {
                    let idx = unflatten(f, shape);
                    let src: usize = (0..s.len()).map(|d| if s[d] == 1 { 0 } else { idx[d] * st[d] }).sum();
                    v[src]
                })
                .collect();
            (shape.clone(), out)
        }
        Op::Permute { perm } => {
            let (s, v) = arg(0);
            let out_shape: Vec<usize> = perm.iter().map(|&p| s[p]).collect();
            let st = strides(&s);
            let total: usize = s.iter().product();
            let out = (0..total)
                .map(|f| {
                    let idx = unflatten(f, &out_shape);
                    v[(0..idx.len()).map(|d| idx[d] * st[perm[d]]).sum::<usize>()]
                })
                .collect();
            (out_shape, out)
        }
        Op::Gather { axis } => {
            let (s, v) = arg(0);
            let (is, iv) = arg(1);
            let mut out_shape = s[..*axis].to_vec();
            out_shape.extend_from_slice(&is);
            out_shape.extend_from_slice(&s[axis + 1..]);
            let st = strides(&s);
            let total: usize = out_shape.iter().product();
            let out = (0..total)
                .map(|f| {
                    let idx = unflatten(f, &out_shape);
                    let k = is.len();
                    let pos = iv[(0..k).map(|d| idx[axis + d] * strides(&is)[d]).sum::<usize>()] as usize;
                    let mut src = 0;
                    for d in 0..s.len() {
                        let i = if d < *axis { idx[d] } else if d == *axis { pos } else { idx[d - 1 + k] };
                        src += i * st[d];
                    }
                    v[src]
                })
                .collect();
            (out_shape, out)
        }
        Op::Max => {
            let (s, a) = arg(0);
            let (_, b) = arg(1);
            (s, a.iter().zip(&b).map(|(x, y)| if x > y { *x } else { *y }).collect())
        }
        Op::Iota { shape, axis, .. } => {
            let total: usize = shape.iter().product();
            (shape.clone(), (0..total).map(|f| unflatten(f, shape)[*axis] as f64).collect())
        }
        Op::Slice { ranges } => {
            let (s, v) = arg(0);
            let st = strides(&s);
            let out_shape: Vec<usize> = ranges.iter().map(|r| (r.1 - r.0 + r.2 - 1) / r.2).collect();
            let total: usize = out_shape.iter().product();
            let out = (0..total)
                .map(|f| {
                    let idx = unflatten(f, &out_shape);
                    v[(0..idx.len()).map(|d| (ranges[d].0 + idx[d] * ranges[d].2) * st[d]).sum::<usize>()]
                })
                .collect();
            (out_shape, out)
        }
        Op::Flip { axes } => {
            let (s, v) = arg(0);
            let st = strides(&s);
            let out = (0..v.len())
                .map(|f| {
                    let idx = unflatten(f, &s);
                    v[(0..idx.len()).map(|d| if axes.contains(&d) { s[d] - 1 - idx[d] } else { idx[d] } * st[d]).sum::<usize>()]
                })
                .collect();
            (s, out)
        }
        Op::Pad { pads } => {
            let (s, v) = arg(0);
            let st = strides(&s);
            let out_shape: Vec<usize> = (0..s.len()).map(|d| pads[d].0 + s[d] + pads[d].1).collect();
            let total: usize = out_shape.iter().product();
            let out = (0..total)
                .map(|f| {
                    let idx = unflatten(f, &out_shape);
                    let inside = (0..s.len()).all(|d| idx[d] >= pads[d].0 && idx[d] < pads[d].0 + s[d]);
                    if inside { v[(0..s.len()).map(|d| (idx[d] - pads[d].0) * st[d]).sum::<usize>()] } else { 0.0 }
                })
                .collect();
            (out_shape, out)
        }
        other => panic!("eval: unsupported op {other:?}"),
    }
}

#[test]
fn scalar_broadcasts_its_constant() {
    let mut g = Graph::new();
    let x = g.input(vec![2, 3], DType::F32);
    let s = g.scalar(x, 2.5f32.to_bits());
    assert_eq!(eval(&g, s), (vec![2, 3], vec![2.5; 6]));
}

#[test]
fn celu_reciprocal_is_rounded_in_f32() {
    // the `1 / alpha` unit of celu: one divided by alpha, rounded once in f32
    let mut g = Graph::new();
    let x = g.input(vec![3], DType::F32);
    let one = g.f32_unit(x, 1.0f32.to_bits());
    let al = g.f32_unit(x, 3.0f32.to_bits());
    let inv = g.div(one, al).unwrap();
    assert_eq!(eval(&g, inv).1, vec![(1.0f32 / 3.0) as f64]);
}

#[test]
fn pixel_shuffle_moves_channels_into_space() {
    let mut g = Graph::new();
    let x = constant(&mut g, vec![0.0, 1.0, 2.0, 3.0], vec![1, 4, 1, 1]);
    let y = g.depth_to_space(x, 2).unwrap();
    assert_eq!(eval(&g, y), (vec![1, 1, 2, 2], vec![0.0, 1.0, 2.0, 3.0]));
    let z = g.space_to_depth(y, 2).unwrap();
    assert_eq!(eval(&g, z), (vec![1, 4, 1, 1], vec![0.0, 1.0, 2.0, 3.0]));
}

#[test]
fn pixel_shuffle_round_trip_on_values() {
    let mut g = Graph::new();
    let vals: Vec<f32> = (0..32).map(|i| i as f32).collect();
    let x = constant(&mut g, vals.clone(), vec![1, 8, 2, 2]);
    let y = g.depth_to_space(x, 2).unwrap();
    let z = g.space_to_depth(y, 2).unwrap();
    let (s, v) = eval(&g, z);
    assert_eq!(s, vec![1, 8, 2, 2]);
    assert_eq!(v, vals.iter().map(|&x| x as f64).collect::<Vec<_>>());
}

#[test]
fn upsample_repeats_each_pixel() {
    let mut g = Graph::new();
    let x = constant(&mut g, vec![1.0, 2.0, 3.0, 4.0], vec![1, 1, 2, 2]);
    let y = g.upsample_nearest2d(x, 2).unwrap();
    let (s, v) = eval(&g, y);
    assert_eq!(s, vec![1, 1, 4, 4]);
    assert_eq!(
        v,
        vec![1.0, 1.0, 2.0, 2.0, 1.0, 1.0, 2.0, 2.0, 3.0, 3.0, 4.0, 4.0, 3.0, 3.0, 4.0, 4.0]
    );
}

#[test]
fn resize_taps_mix_gathered_values() {
    let mut g = Graph::new();
    let x = constant(&mut g, vec![10.0, 20.0], vec![1, 2]);
    let near = g.resize_gather(x, 1, &vec![0, 0, 1]).unwrap();
    assert_eq!(eval(&g, near), (vec![1, 3], vec![10.0, 10.0, 20.0]));
    let taps = vec![
        (vec![0i64, 0, 1], vec![1.0f32.to_bits(), 0.5f32.to_bits(), 1.0f32.to_bits()]),
        (vec![0i64, 1, 1], vec![0.0f32.to_bits(), 0.5f32.to_bits(), 0.0f32.to_bits()]),
    ];
    let mix = g.resize_mix(x, 1, 3, &taps).unwrap();
    assert_eq!(eval(&g, mix), (vec![1, 3], vec![10.0, 15.0, 20.0]));
}

#[test]
fn prelu_applies_one_slope_per_column() {
    let mut g = Graph::new();
    let x = constant(&mut g, vec![1.0, -2.0, 3.0, -4.0, 5.0, -6.0], vec![2, 3]);
    let slope = constant(&mut g, vec![0.5, 0.25, 2.0], vec![3]);
    let r = g.prelu(x, slope).unwrap();
    let (s, v) = eval(&g, r);
    assert_eq!(s, vec![2, 3]);
    assert_eq!(v, vec![1.0, -0.5, 3.0, -2.0, 5.0, -12.0]);
}

#[test]
fn pad_mode_fills_borders_from_the_tensor() {
    let mut g = Graph::new();
    let x = constant(&mut g, vec![1.0, 2.0, 3.0, 4.0], vec![4]);
    let r = g.pad_mode(x, vec![(2, 1)], "reflect").unwrap();
    assert_eq!(eval(&g, r), (vec![7], vec![3.0, 2.0, 1.0, 2.0, 3.0, 4.0, 3.0]));
    let p = g.pad_mode(x, vec![(2, 1)], "replicate").unwrap();
    assert_eq!(eval(&g, p), (vec![7], vec![1.0, 1.0, 1.0, 2.0, 3.0, 4.0, 4.0]));
    let c = g.pad_mode(x, vec![(2, 1)], "circular").unwrap();
    assert_eq!(eval(&g, c), (vec![7], vec![3.0, 4.0, 1.0, 2.0, 3.0, 4.0, 1.0]));
    assert!(g.pad_mode(x, vec![(4, 0)], "reflect").is_err());
    assert!(g.pad_mode(x, vec![(2, 1)], "edge").is_err());
}

#[test]
fn pad_mode_pads_each_axis_in_turn() {
    let mut g = Graph::new();
    let x = constant(&mut g, vec![1.0, 2.0, 3.0, 4.0], vec![2, 2]);
    let r = g.pad_mode(x, vec![(1, 0), (0, 1)], "replicate").unwrap();
    assert_eq!(eval(&g, r), (vec![3, 3], vec![1.0, 2.0, 2.0, 1.0, 2.0, 2.0, 3.0, 4.0, 4.0]));
}

#[test]
fn bartlett_window_is_a_triangle() {
    let mut g = Graph::new();
    let w = g.bartlett_window(5);
    let (s, v) = eval(&g, w);
    assert_eq!(s, vec![5]);
    let want = [0.0, 0.5, 1.0, 0.5, 0.0];
    for i in 0..5 {
        assert!((v[i] - want[i]).abs() < 1e-6, "{i}: {}", v[i]);
    }
    let one = g.bartlett_window(1);
    assert_eq!(eval(&g, one), (vec![1], vec![1.0]));
}
