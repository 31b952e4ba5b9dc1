use kurumi_core::graph::ops::base::einsum_eq::expand_ellipsis;
use kurumi_core::{DType, Graph, ScatterOp};

#[test]
fn fft_family_shapes() {
    let mut g = Graph::new();
    let x = g.input(vec![3, 8], DType::F32);
    let f = g.fft(x, 1).unwrap();
    assert_eq!((g.shape(f), g.dtype(f)), (vec![3, 8], DType::C64));
    let i = g.ifft(f, 1).unwrap();
    assert_eq!(g.shape(i), vec![3, 8]);
    assert!(g.fft(x, 2).is_err());
    let r = g.rfft(x, 1).unwrap();
    assert_eq!((g.shape(r), g.dtype(r)), (vec![3, 5], DType::C64));
    let back = g.irfft(r, 1, 8).unwrap();
    assert_eq!((g.shape(back), g.dtype(back)), (vec![3, 8], DType::F32));
    assert!(g.irfft(r, 1, 6).is_err());
    let f2 = g.fft2(x).unwrap();
    assert_eq!(g.shape(f2), vec![3, 8]);
    let x64 = g.input(vec![4], DType::F64);
    let f64_ = g.fft(x64, 0).unwrap();
    assert_eq!(g.dtype(f64_), DType::C128);
}

#[test]
fn stft_frames_and_istft_length() {
    let mut g = Graph::new();
    let x = g.input(vec![2, 16], DType::F32);
    let w = g.hann_window(4);
    assert_eq!(g.shape(w), vec![4]);
    let s = g.stft(x, 4, 2, Some(w)).unwrap();
    // (16 - 4) / 2 + 1 frames
    assert_eq!(g.shape(s), vec![2, 7, 4]);
    let y = g.istft(s, 2, Some(w)).unwrap();
    // (7 - 1) * 2 + 4 samples
    assert_eq!(g.shape(y), vec![2, 16]);
    assert!(g.stft(x, 32, 2, None).is_err());
    assert!(g.stft(x, 4, 0, None).is_err());
}

#[test]
fn windows_have_length_n() {
    let mut g = Graph::new();
    for n in [1usize, 5, 8] {
        let a = g.hamming_window(n);
        let b = g.blackman_window(n);
        let c = g.bartlett_window(n);
        for id in [a, b, c] {
            assert_eq!((g.shape(id), g.dtype(id)), (vec![n], DType::F32));
        }
    }
}

#[test]
fn einsum_contractions() {
    let mut g = Graph::new();
    let a = g.input(vec![2, 3], DType::F32);
    let b = g.input(vec![3, 4], DType::F32);
    let m = g.einsum("ij,jk->ik", &[a, b]).unwrap();
    assert_eq!(g.rank(m), 2);
    let t = g.einsum("ij->ji", &[a]).unwrap();
    assert_eq!(g.rank(t), 2);
    let s = g.einsum("ij->", &[a]).unwrap();
    assert_eq!(g.rank(s), 0);
    assert!(g.einsum("ij,jk", &[a]).is_err());
    assert!(g.einsum("i->i->i", &[a]).is_err());
}

fn chars(s: &str) -> Vec<char> {
    s.chars().collect()
}

#[test]
fn ellipsis_expansion() {
    let e = expand_ellipsis(&chars("...ij,...jk->...ik"), &vec![4, 3]).unwrap();
    assert_eq!(e, chars("ABij,Bjk->ABik"));
    assert_eq!(expand_ellipsis(&chars("ij,jk->ik"), &vec![2, 2]).unwrap(), chars("ij,jk->ik"));
    assert_eq!(expand_ellipsis(&chars("ij,jk"), &vec![2, 2]).unwrap(), chars("ij,jk->ik"));
    assert_eq!(expand_ellipsis(&chars("...i->i"), &vec![3]).unwrap(), chars("ABi->i"));
    assert!(expand_ellipsis(&chars("ij,jk->ik"), &vec![2]).is_none());
}

#[test]
fn linear_algebra_shapes() {
    let mut g = Graph::new();
    let a = g.input(vec![2, 3, 3], DType::F32);
    let b = g.input(vec![2, 3, 4], DType::F32);
    let x = g.solve(a, b).unwrap();
    assert_eq!(g.shape(x), vec![2, 3, 4]);
    let d = g.det(a).unwrap();
    assert_eq!(g.shape(d), vec![2]);
    let inv = g.inv(a).unwrap();
    assert_eq!(g.shape(inv), vec![2, 3, 3]);
    let (q, r) = g.qr(b).unwrap();
    assert_eq!((g.shape(q), g.shape(r)), (vec![2, 3, 3], vec![2, 3, 4]));
    let (u, s, v) = g.svd(b).unwrap();
    assert_eq!((g.shape(u), g.shape(s), g.shape(v)), (vec![2, 3, 3], vec![2, 3], vec![2, 4, 3]));
    let ai = g.input(vec![3, 3], DType::I32);
    assert!(g.det(ai).is_err());
    let e = g.matrix_exp(a).unwrap();
    assert_eq!(g.shape(e), vec![2, 3, 3]);
}

#[test]
fn joins_and_splits() {
    let mut g = Graph::new();
    let a = g.input(vec![2, 3], DType::F32);
    let b = g.input(vec![2, 5], DType::F32);
    let c = g.concat(&[a, b], 1).unwrap();
    assert_eq!(g.shape(c), vec![2, 8]);
    let parts = g.split(c, &[3, 5], 1).unwrap();
    assert_eq!(parts.len(), 2);
    assert_eq!((g.shape(parts[0]), g.shape(parts[1])), (vec![2, 3], vec![2, 5]));
    let st = g.stack(&[a, a], 0).unwrap();
    assert_eq!(g.shape(st), vec![2, 2, 3]);
    assert!(g.concat(&[a, b], 0).is_err());
}

#[test]
fn indexing_builders() {
    let mut g = Graph::new();
    let x = g.input(vec![4, 5], DType::F32);
    let (vals, idx) = g.topk(x, 2, 1, true).unwrap();
    assert_eq!((g.shape(vals), g.shape(idx), g.dtype(idx)), (vec![4, 2], vec![4, 2], DType::I64));
    assert!(g.topk(x, 6, 1, true).is_err());
    let s = g.sort(x, 0, true).unwrap();
    assert_eq!(g.shape(s), vec![4, 5]);
    let labels = g.input(vec![4], DType::I64);
    let oh = g.onehot(labels, 10).unwrap();
    assert_eq!((g.shape(oh), g.dtype(oh)), (vec![4, 10], DType::F32));
    let ind = g.input(vec![3, 1], DType::I64);
    let gn = g.gather_nd(x, ind).unwrap();
    assert_eq!(g.shape(gn), vec![3, 5]);
    let upd = g.input(vec![3, 5], DType::F32);
    let sn = g.scatter_nd(x, ind, upd, ScatterOp::Add).unwrap();
    assert_eq!(g.shape(sn), vec![4, 5]);
}

#[test]
fn repeats_rolls_and_scans() {
    let mut g = Graph::new();
    let x = g.input(vec![2, 3], DType::F32);
    let t = g.tile(x, 1, 3).unwrap();
    assert_eq!(g.shape(t), vec![2, 9]);
    let r = g.repeat_interleave(x, 0, 2).unwrap();
    assert_eq!(g.shape(r), vec![4, 3]);
    let rl = g.roll(x, 1, 1).unwrap();
    assert_eq!(g.shape(rl), vec![2, 3]);
    for id in [g.cumsum(x, 1).unwrap(), g.cumprod(x, 1).unwrap(), g.cummax(x, 0).unwrap(), g.cummin(x, 0).unwrap()] {
        assert_eq!(g.shape(id), vec![2, 3]);
    }
    assert!(g.cumsum(x, 2).is_err());
}

#[test]
fn padding_modes() {
    let mut g = Graph::new();
    let x = g.input(vec![3, 4], DType::F32);
    for mode in ["reflect", "replicate", "circular"] {
        let p = g.pad_mode(x, vec![(1, 1), (2, 0)], mode).unwrap();
        assert_eq!(g.shape(p), vec![5, 6], "mode {mode}");
    }
    assert!(g.pad_mode(x, vec![(1, 1), (2, 0)], "constant").is_err());
    assert!(g.pad_mode(x, vec![(3, 0), (0, 0)], "reflect").is_err());
}

#[test]
fn triangles_and_diagonals() {
    let mut g = Graph::new();
    let x = g.input(vec![3, 4], DType::F32);
    let d = g.diagonal(x).unwrap();
    assert_eq!(g.shape(d), vec![3]);
    let tr = g.trace(x).unwrap();
    assert_eq!(g.shape(tr), Vec::<usize>::new());
    let lo = g.tril(x, 0).unwrap();
    let up = g.triu(x, 1).unwrap();
    assert_eq!((g.shape(lo), g.shape(up)), (vec![3, 4], vec![3, 4]));
    let v = g.input(vec![2, 5], DType::F32);
    let e = g.diag_embed(v).unwrap();
    assert_eq!(g.shape(e), vec![2, 5, 5]);
}

#[test]
fn pooling_and_convolution() {
    let mut g = Graph::new();
    let x = g.input(vec![1, 2, 6, 6], DType::F32);
    let mp = g.max_pool2d(x, (2, 2), (2, 2)).unwrap();
    assert_eq!(g.shape(mp), vec![1, 2, 3, 3]);
    let ap = g.avg_pool2d(x, (3, 3), (1, 1)).unwrap();
    assert_eq!(g.shape(ap), vec![1, 2, 4, 4]);
    let w = g.input(vec![4, 2, 3, 3], DType::F32);
    let c = g.conv2d(x, w, (1, 1), (1, 1), (1, 1)).unwrap();
    assert_eq!(g.shape(c), vec![1, 4, 6, 6]);
    let c2 = g.conv2d(x, w, (2, 2), (0, 0), (1, 1)).unwrap();
    assert_eq!(g.shape(c2), vec![1, 4, 2, 2]);
    let x1 = g.input(vec![2, 3, 10], DType::F32);
    let w1 = g.input(vec![5, 3, 3], DType::F32);
    let c1 = g.conv1d(x1, w1, 1, 0, 2).unwrap();
    assert_eq!(g.shape(c1), vec![2, 5, 6]);
    let w64 = g.input(vec![5, 3, 3], DType::F64);
    assert!(g.conv1d(x1, w64, 1, 0, 1).is_err());
    let sp = g.sum_pool1d(x1, 2, 2).unwrap();
    assert_eq!(g.shape(sp), vec![2, 3, 5]);
}

#[test]
fn special_functions_keep_shape() {
    let mut g = Graph::new();
    let x = g.input(vec![7], DType::F32);
    let ids = [g.erf(x), g.erfc(x), g.lgamma(x), g.gamma(x), g.digamma(x), g.erfinv(x), g.i0(x)];
    for id in ids {
        assert_eq!((g.shape(id), g.dtype(id)), (vec![7], DType::F32));
    }
    let b = g.beta(x, x).unwrap();
    assert_eq!(g.shape(b), vec![7]);
}

#[test]
fn complex_parts() {
    let mut g = Graph::new();
    let re = g.input(vec![3], DType::F32);
    let z = g.complex(re, re).unwrap();
    assert_eq!(g.dtype(z), DType::C64);
    let r = g.real_part(z).unwrap();
    let i = g.imag(z).unwrap();
    assert_eq!((g.dtype(r), g.dtype(i)), (DType::F32, DType::F32));
    let a = g.cabs(z).unwrap();
    assert_eq!(g.dtype(a), DType::F32);
}

#[test]
fn concat_joins_bool_parts() {
    let mut g = Graph::new();
    let p = g.input(vec![2, 3], DType::BOOL);
    let q = g.input(vec![2, 1], DType::BOOL);
    let r = g.concat(&[p, q], 1).unwrap();
    assert_eq!((g.shape(r), g.dtype(r)), (vec![2, 4], DType::BOOL));
    assert!(g.concat(&[], 0).is_err());
}

#[test]
fn bartlett_window_of_length_zero_is_empty() {
    let mut g = Graph::new();
    let w = g.bartlett_window(0);
    assert_eq!((g.shape(w), g.dtype(w)), (vec![0], DType::F32));
    let h = g.hann_window(0);
    assert_eq!(g.shape(h), vec![0]);
}

#[test]
fn prelu_broadcasts_the_slope() {
    let mut g = Graph::new();
    let x = g.input(vec![2, 3], DType::F32);
    let slope = g.input(vec![3], DType::F32);
    let r = g.prelu(x, slope).unwrap();
    assert_eq!((g.shape(r), g.dtype(r)), (vec![2, 3], DType::F32));
    let bad = g.input(vec![2], DType::F32);
    assert!(g.prelu(x, bad).is_err());
}

#[test]
fn roll_of_bool_succeeds() {
    let mut g = Graph::new();
    let x = g.input(vec![4], DType::BOOL);
    let r = g.roll(x, 1, 0).unwrap();
    assert_eq!((g.shape(r), g.dtype(r)), (vec![4], DType::BOOL));
}
