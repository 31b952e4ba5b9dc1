use kurumi_core::graph::f32bits::{i64_f32_bits, int_f32_bits, recip_count_bits};
use kurumi_core::graph::ops::base::spatial::{coord_mode, interp_mode, Coord, Interp};
use kurumi_core::{DType, ErrorKind, Graph, Op};

fn bits(x: f32) -> u32 {
    x.to_bits()
}

#[test]
fn int_to_f32_bits_is_exact_below_two_to_the_24() {
    for n in [1u64, 2, 3, 7, 100, 255, 4096, 123_456, (1 << 24) - 1] {
        assert_eq!(int_f32_bits(n), (n as f32).to_bits(), "n = {n}");
    }
    assert_eq!(int_f32_bits(0), 0);
}

#[test]
fn int_to_f32_bits_rounds_to_nearest_even_above() {
    for n in [(1u64 << 24) + 1, (1 << 24) + 3, (1 << 40) + 12345, u64::MAX] {
        assert_eq!(int_f32_bits(n), (n as f32).to_bits(), "n = {n}");
    }
}

#[test]
fn signed_int_to_f32_bits() {
    for v in [0i64, 1, -1, -5, 42, -100_000, i64::MIN, i64::MAX] {
        assert_eq!(i64_f32_bits(v), (v as f32).to_bits(), "v = {v}");
    }
}

#[test]
fn reciprocal_count_bits() {
    for n in [1u64, 2, 3, 10, 768, 1000] {
        assert_eq!(recip_count_bits(n), (1.0f32 / n as f32).to_bits(), "n = {n}");
    }
    assert_eq!(recip_count_bits(0), f32::INFINITY.to_bits());
}

#[test]
fn resize_mode_names() {
    assert_eq!(interp_mode("linear"), Some(Interp::Linear));
    assert_eq!(interp_mode("nearest"), Some(Interp::Nearest));
    assert_eq!(interp_mode("cubic"), Some(Interp::Cubic));
    assert_eq!(interp_mode("bilinear"), None);
    assert_eq!(coord_mode("half_pixel"), Some(Coord::HalfPixel));
    assert_eq!(coord_mode("align_corners"), Some(Coord::AlignCorners));
    assert_eq!(coord_mode("asymmetric"), Some(Coord::Asymmetric));
    assert_eq!(coord_mode("pytorch_half_pixel"), Some(Coord::PytorchHalfPixel));
    assert_eq!(coord_mode("half-pixel"), None);
}

#[test]
fn losses_keep_shape_or_reduce_the_class_axis() {
    let mut g = Graph::new();
    let p = g.input(vec![2, 3], DType::F32);
    let t = g.input(vec![2, 3], DType::F32);
    for id in [
        g.mse_loss(p, t).unwrap(),
        g.l1_loss(p, t).unwrap(),
        g.huber_loss(p, t, bits(1.0)).unwrap(),
        g.bce_loss(p, t).unwrap(),
        g.bce_with_logits(p, t).unwrap(),
        g.kl_div(p, t).unwrap(),
        g.hinge_loss(p, t).unwrap(),
    ] {
        assert_eq!(g.shape(id), vec![2, 3]);
        assert_eq!(g.dtype(id), DType::F32);
    }
    let nll = g.nll_loss(p, t, 1).unwrap();
    assert_eq!(g.shape(nll), vec![2]);
    let ce = g.cross_entropy(p, t, 1).unwrap();
    assert_eq!(g.shape(ce), vec![2]);
}

#[test]
fn losses_reject_mismatched_operands() {
    let mut g = Graph::new();
    let p = g.input(vec![2, 3], DType::F32);
    let t = g.input(vec![3, 2], DType::F32);
    let t64 = g.input(vec![2, 3], DType::F64);
    assert!(g.mse_loss(p, t).is_err());
    assert!(g.l1_loss(p, t64).is_err());
    assert!(g.cross_entropy(p, t, 1).is_err());
    assert!(g.cross_entropy(p, p, 2).is_err());
    assert!(g.kl_div(p, t64).is_err());
}

#[test]
fn activations_keep_shape() {
    let mut g = Graph::new();
    let x = g.input(vec![4, 5], DType::F32);
    let a = g.gelu_erf(x);
    let b = g.leaky_relu(x, bits(0.01));
    let c = g.celu(x, bits(1.0));
    let d = g.elu(x, bits(1.0));
    let e = g.log_softmax(x, 1).unwrap();
    for id in [a, b, c, d, e] {
        assert_eq!(g.shape(id), vec![4, 5]);
        assert_eq!(g.dtype(id), DType::F32);
    }
    assert!(g.log_softmax(x, 2).is_err());
}

#[test]
fn normalization_layers() {
    let mut g = Graph::new();
    let x = g.input(vec![2, 4, 3], DType::F32);
    let ln = g.layernorm(x, 2, bits(1e-5)).unwrap();
    assert_eq!(g.shape(ln), vec![2, 4, 3]);
    let rn = g.rmsnorm(x, 2, bits(1e-6)).unwrap();
    assert!(matches!(g.node(rn).op, Op::RmsNorm { axis: 2, eps_bits } if eps_bits == bits(1e-6)));
    assert!(g.rmsnorm(x, 3, bits(1e-6)).is_err());
    let gn = g.group_norm(x, 2, bits(1e-5)).unwrap();
    assert_eq!(g.shape(gn), vec![2, 4, 3]);
    assert!(matches!(g.group_norm(x, 3, bits(1e-5)).unwrap_err().kind, ErrorKind::Invalid));
    assert!(g.group_norm(x, 0, bits(1e-5)).is_err());
    let inn = g.instance_norm(x, bits(1e-5)).unwrap();
    assert_eq!(g.shape(inn), vec![2, 4, 3]);
    let y = g.input(vec![1, 4, 2, 2], DType::F32);
    let l = g.lrn(y, 3, bits(1e-4), bits(0.75), bits(1.0)).unwrap();
    assert_eq!(g.shape(l), vec![1, 4, 2, 2]);
    assert!(g.lrn(y, 0, bits(1e-4), bits(0.75), bits(1.0)).is_err());
    let b = g.input(vec![2, 4], DType::BOOL);
    assert!(g.layernorm(b, 1, bits(1e-5)).is_err());
}

#[test]
fn rope_needs_even_head_dim_and_f32() {
    let mut g = Graph::new();
    let x = g.input(vec![2, 4, 8], DType::F32);
    let r = g.rope(x).unwrap();
    assert_eq!(g.shape(r), vec![2, 4, 8]);
    let odd = g.input(vec![2, 4, 7], DType::F32);
    assert!(g.rope(odd).is_err());
    let x64 = g.input(vec![4, 8], DType::F64);
    assert!(g.rope(x64).is_err());
}

#[test]
fn attention_decomposition_and_fused_primitive() {
    let mut g = Graph::new();
    let q = g.input(vec![2, 4, 8], DType::F32);
    let k = g.input(vec![2, 6, 8], DType::F32);
    let v = g.input(vec![2, 6, 5], DType::F32);
    let o = g.sdpa_decomposed(q, k, v, false).unwrap();
    assert_eq!(g.shape(o), vec![2, 4, 5]);
    // a causal mask needs as many keys as queries
    assert!(g.sdpa_decomposed(q, k, v, true).is_err());
    let o2 = g.sdpa(q, q, q, true).unwrap();
    assert_eq!(g.shape(o2), vec![2, 4, 8]);
    let f = g.sdpa_fused(q, q, q, true).unwrap();
    assert!(matches!(g.node(f).op, Op::Sdpa { causal: true }));
    assert_eq!(g.node(f).src, vec![q, q, q]);
    assert!(g.sdpa_fused(q, k, k, false).is_err());
    let qi = g.input(vec![2, 4, 8], DType::I64);
    assert!(g.sdpa(qi, qi, qi, false).is_err());
}

#[test]
fn order_statistics_and_moments() {
    let mut g = Graph::new();
    let x = g.input(vec![3, 5], DType::F32);
    let m = g.median(x, 1).unwrap();
    assert_eq!(g.shape(m), vec![3]);
    let x4 = g.input(vec![3, 4], DType::F32);
    let m4 = g.median(x4, 1).unwrap();
    assert_eq!(g.shape(m4), vec![3]);
    let q = g.quantile_at(x, 1, 2, Some((bits(0.5), bits(0.5)))).unwrap();
    assert_eq!(g.shape(q), vec![3]);
    assert!(g.quantile_at(x, 1, 5, None).is_err());
    let mo = g.mode(x, 0).unwrap();
    assert_eq!(g.shape(mo), vec![5]);
    let c = g.cov(x).unwrap();
    assert_eq!(g.shape(c), vec![3, 3]);
    let r = g.corrcoef(x).unwrap();
    assert_eq!(g.shape(r), vec![3, 3]);
    let v = g.input(vec![5], DType::F32);
    assert!(g.cov(v).is_err());
}

#[test]
fn distances() {
    let mut g = Graph::new();
    let a = g.input(vec![4, 3], DType::F32);
    let b = g.input(vec![5, 3], DType::F32);
    let d = g.cdist(a, b, bits(2.0)).unwrap();
    assert_eq!(g.shape(d), vec![4, 5]);
    let p = g.pdist(a, bits(1.0)).unwrap();
    assert_eq!(g.shape(p), vec![4, 4]);
    let c = g.input(vec![5, 2], DType::F32);
    assert!(matches!(g.cdist(a, c, bits(2.0)).unwrap_err().kind, ErrorKind::ShapeMismatch));
    let cs = g.cosine_similarity(a, a, 1).unwrap();
    assert_eq!(g.shape(cs), vec![4]);
    let n = g.norm_p(a, bits(3.0), 0).unwrap();
    assert_eq!(g.shape(n), vec![3]);
    let mask = g.input(vec![4, 3], DType::BOOL);
    let f = g.masked_fill(a, mask, bits(-1.0)).unwrap();
    assert_eq!(g.shape(f), vec![4, 3]);
    assert!(g.masked_fill(a, b, bits(0.0)).is_err());
}

#[test]
fn random_draws() {
    let mut g = Graph::new();
    let u = g.rand_uniform(vec![2, 3], 7);
    assert!(matches!(&g.node(u).op, Op::RandUniform { shape } if *shape == vec![2, 3]));
    assert_eq!(g.dtype(u), DType::F32);
    let seed = g.input(vec![1], DType::I64);
    let k = g.rand_uniform_keyed(vec![4], seed).unwrap();
    assert_eq!(g.node(k).src, vec![seed]);
    let fseed = g.input(vec![1], DType::F32);
    assert!(g.rand_uniform_keyed(vec![4], fseed).is_err());
    let n = g.randn(vec![3], 1);
    assert_eq!((g.shape(n), g.dtype(n)), (vec![3], DType::F32));
    let r = g.rand_range(vec![3], 1, bits(-1.0), bits(1.0));
    assert_eq!(g.shape(r), vec![3]);
    let i = g.randint(vec![3], 1, 0, 10);
    assert_eq!(g.dtype(i), DType::I64);
    let b = g.bernoulli(vec![2], 3, bits(0.5)).unwrap();
    assert_eq!(g.dtype(b), DType::F32);
    let x = g.input(vec![2, 2], DType::F32);
    let d = g.dropout(x, bits(0.1), 9).unwrap();
    assert_eq!(g.shape(d), vec![2, 2]);
    let flag = g.input(vec![2], DType::BOOL);
    assert!(g.dropout(flag, bits(0.1), 9).is_err());
}

#[test]
fn static_size_selection() {
    let mut g = Graph::new();
    let x = g.input(vec![5], DType::F32);
    let m = g.input(vec![5], DType::BOOL);
    let c = g.compress(m, x, 3).unwrap();
    assert_eq!((g.shape(c), g.dtype(c)), (vec![3], DType::F32));
    let mf = g.input(vec![5], DType::F32);
    assert!(g.compress(mf, x, 3).is_err());
    let x2 = g.input(vec![2, 3], DType::I32);
    let m2 = g.input(vec![3, 2], DType::BOOL);
    let s = g.masked_select(x2, m2, 4).unwrap();
    assert_eq!((g.shape(s), g.dtype(s)), (vec![4], DType::I32));
    let nz = g.nonzero(x2, 2).unwrap();
    assert_eq!((g.shape(nz), g.dtype(nz)), (vec![2], DType::I64));
    let u = g.unique(x2, 6).unwrap();
    assert_eq!(g.shape(u), vec![6]);
}

#[test]
fn spatial_rearrangement() {
    let mut g = Graph::new();
    let x = g.input(vec![1, 2, 3, 4], DType::F32);
    let up = g.upsample_nearest2d(x, 2).unwrap();
    assert_eq!(g.shape(up), vec![1, 2, 6, 8]);
    let y = g.input(vec![1, 8, 2, 3], DType::F32);
    let d2s = g.depth_to_space(y, 2).unwrap();
    assert_eq!(g.shape(d2s), vec![1, 2, 4, 6]);
    let s2d = g.space_to_depth(d2s, 2).unwrap();
    assert_eq!(g.shape(s2d), vec![1, 8, 2, 3]);
    assert!(g.depth_to_space(x, 2).is_err());
    assert!(g.space_to_depth(x, 3).is_err());
}

#[test]
fn resize_taps() {
    let mut g = Graph::new();
    let x = g.input(vec![1, 1, 2, 2], DType::F32);
    let near = g.resize_gather(x, 3, &vec![0, 0, 1, 1]).unwrap();
    assert_eq!(g.shape(near), vec![1, 1, 2, 4]);
    let taps = vec![(vec![0i64, 0, 1], vec![bits(1.0), bits(0.5), bits(1.0)]), (vec![0i64, 1, 1], vec![bits(0.0), bits(0.5), bits(0.0)])];
    let mix = g.resize_mix(x, 2, 3, &taps).unwrap();
    assert_eq!(g.shape(mix), vec![1, 1, 3, 2]);
    assert!(g.resize_mix(x, 2, 3, &vec![]).is_err());
    let xi = g.input(vec![1, 1, 2, 2], DType::I32);
    assert!(g.resize_mix(xi, 2, 3, &taps).is_err());
}

#[test]
fn transposed_convolution_sizes() {
    let mut g = Graph::new();
    let x = g.input(vec![1, 2, 5], DType::F32);
    let w = g.input(vec![2, 3, 3], DType::F32);
    let y = g.conv_transpose1d(x, w, 2, 1, 1, 1).unwrap();
    // (5 - 1) * 2 - 2 * 1 + 1 * (3 - 1) + 1 + 1
    assert_eq!(g.shape(y), vec![1, 3, 10]);
    let x2 = g.input(vec![1, 2, 3, 3], DType::F32);
    let w2 = g.input(vec![2, 4, 3, 3], DType::F32);
    let y2 = g.conv_transpose2d(x2, w2, (2, 2), (1, 1), (0, 0), (1, 1)).unwrap();
    assert_eq!(g.shape(y2), vec![1, 4, 5, 5]);
    let x3 = g.input(vec![1, 1, 2, 2, 2], DType::F32);
    let w3 = g.input(vec![1, 2, 2, 2, 2], DType::F32);
    let y3 = g.conv_transpose3d(x3, w3, (1, 1, 1), (0, 0, 0), (0, 0, 0), (1, 1, 1)).unwrap();
    assert_eq!(g.shape(y3), vec![1, 2, 3, 3, 3]);
    let w64 = g.input(vec![2, 3, 3], DType::F64);
    assert!(g.conv_transpose1d(x, w64, 1, 0, 0, 1).is_err());
}
