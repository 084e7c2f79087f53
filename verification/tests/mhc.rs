//! Hyper-connections: the Sinkhorn projection to the value, what it keeps, and the shapes of the
//! mixing.

use candle_core::{DType, Device};
use deepseek_v4_candle::error::TensorError;
use deepseek_v4_candle::mhc::{hc_split_sinkhorn, Hc};
use deepseek_v4_candle::tensor::Tensor;

const HC: usize = 4;
const ITERS: usize = 20;
const EPS: f64 = 1e-6;
const MIX_HC: usize = (2 + HC) * HC;

fn tensor(shape: &[usize], data: &[f32]) -> Tensor {
    Tensor::new(shape.to_vec(), data.iter().map(|v| v.to_bits()).collect()).unwrap()
}

fn floats(t: &Tensor) -> Vec<f32> {
    t.data().iter().map(|b| f32::from_bits(*b)).collect()
}

fn assert_close(got: &[f32], want: &[f32], tolerance: f32, name: &str) {
    assert_eq!(got.len(), want.len(), "{name}: length");
    for (k, (a, b)) in got.iter().zip(want.iter()).enumerate() {
        assert!((a - b).abs() < tolerance, "{name}[{k}] = {a}, expected {b}");
    }
}

/// `0.3 * sin(0.7 * (start + k) + 1)` at element `k` of an `[o, i]` tensor.
fn det_at(o: usize, i: usize, start: i64) -> Tensor {
    let n = (o * i) as i64;
    let values = candle_core::Tensor::arange(start, start + n, &Device::Cpu)
        .unwrap()
        .to_dtype(DType::F32)
        .unwrap()
        .affine(0.7, 1.0)
        .unwrap()
        .sin()
        .unwrap()
        .affine(0.3, 0.0)
        .unwrap()
        .to_vec1::<f32>()
        .unwrap();
    tensor(&[o, i], &values)
}

fn golden_inputs() -> (Tensor, Tensor, Tensor) {
    let mixes = det_at(2, MIX_HC, 10);
    let scale = tensor(&[3], &[4.0f32, 4.0, 4.0]);
    let base = det_at(1, MIX_HC, 50).reshape(vec![MIX_HC]).unwrap();
    (mixes, scale, base)
}

#[test]
fn sinkhorn_matches_reference() {
    let (mixes, scale, base) = golden_inputs();
    let (pre, post, comb) =
        hc_split_sinkhorn(&mixes, &scale, &base, HC, ITERS, EPS.to_bits()).unwrap();
    assert_eq!(pre.dims(), &[2, HC]);
    assert_eq!(post.dims(), &[2, HC]);
    assert_eq!(comb.dims(), &[2, HC, HC]);

    let pre_golden = [
        0.708_828_f32, 0.632_573, 0.485_337, 0.346_828, 0.334_146, 0.544_526, 0.723_654, 0.784_822,
    ];
    let post_golden = [
        0.574_147_f32, 0.637_966, 0.875_378, 1.185_425, 1.468_672, 1.129_911, 0.700_913, 0.461_116,
    ];
    let comb_golden = [
        0.277_498_f32, 0.325_558, 0.254_334, 0.142_609, 0.206_221, 0.174_172, 0.228_088, 0.391_519,
        0.162_219, 0.278_386, 0.326_458, 0.232_936, 0.354_061, 0.221_883, 0.191_119, 0.232_935,
        0.082_716, 0.138_254, 0.319_754, 0.459_275, 0.469_726, 0.336_611, 0.151_888, 0.041_773,
        0.162_536, 0.154_884, 0.264_314, 0.418_265, 0.285_021, 0.370_25, 0.264_043, 0.080_685,
    ];
    assert_close(&floats(&pre), &pre_golden, 1e-4, "pre");
    assert_close(&floats(&post), &post_golden, 1e-4, "post");
    assert_close(&floats(&comb), &comb_golden, 1e-4, "comb");
}

/// Rows and columns sum to one, and the gates lie in their ranges.
#[test]
fn comb_is_doubly_stochastic() {
    let (mixes, scale, base) = golden_inputs();
    let (pre, post, comb) =
        hc_split_sinkhorn(&mixes, &scale, &base, HC, ITERS, EPS.to_bits()).unwrap();
    let c = floats(&comb);
    for n in 0..2 {
        for a in 0..HC {
            let row: f32 = (0..HC).map(|b| c[(n * HC + a) * HC + b]).sum();
            let col: f32 = (0..HC).map(|b| c[(n * HC + b) * HC + a]).sum();
            for (label, v) in [("row", row), ("col", col)] {
                assert!((v - 1.0).abs() < 1e-3, "{label} sum {v} deviates from 1 by more than 1e-3");
            }
        }
    }
    for v in floats(&post) {
        assert!(v > 0.0 && v < 2.0, "post {v} out of (0,2)");
    }
    for v in floats(&pre) {
        assert!(v > 0.0 && v < 1.0 + 1e-3, "pre {v} out of (0,1]");
    }
}

fn mixer(dim: usize) -> Hc {
    Hc {
        hc_fn: det_at(MIX_HC, HC * dim, 3),
        hc_base: det_at(1, MIX_HC, 71).reshape(vec![MIX_HC]).unwrap(),
        hc_scale: tensor(&[3], &[1.0f32, 1.0, 1.0]),
        hc: HC,
        sinkhorn_iters: ITERS,
        eps: EPS.to_bits(),
        norm_eps: 1e-6f64.to_bits(),
    }
}

/// `[b, s, hc, dim]` collapses to `[b, s, dim]` and expands back.
#[test]
fn pre_post_shapes_round_trip() {
    let (b, s, dim) = (2usize, 3usize, 8usize);
    let hc = mixer(dim);
    let x = det_at(b * s * HC, dim, 200).reshape(vec![b, s, HC, dim]).unwrap();
    let (collapsed, post, comb) = hc.pre(&x).unwrap();
    assert_eq!(collapsed.dims(), &[b, s, dim]);
    assert_eq!(post.dims(), &[b, s, HC]);
    assert_eq!(comb.dims(), &[b, s, HC, HC]);

    let out = hc.post(&collapsed, &x, &post, &comb).unwrap();
    assert_eq!(out.dims(), &[b, s, HC, dim]);
}

/// Stream `k` of the output is `post[k] * x` plus the streams of the residual, weighed by column `k`
/// of the matrix.
#[test]
fn post_mixes_the_residual() {
    let (b, s, dim) = (1usize, 2usize, 3usize);
    let hc = mixer(dim);
    let x = det_at(b * s, dim, 5).reshape(vec![b, s, dim]).unwrap();
    let residual = det_at(b * s * HC, dim, 90).reshape(vec![b, s, HC, dim]).unwrap();
    let post = det_at(b * s, HC, 40).reshape(vec![b, s, HC]).unwrap();
    let comb = det_at(b * s * HC, HC, 60).reshape(vec![b, s, HC, HC]).unwrap();
    let got = floats(&hc.post(&x, &residual, &post, &comb).unwrap());
    let (x, r, p, c) = (floats(&x), floats(&residual), floats(&post), floats(&comb));
    for t in 0..b * s {
        for k in 0..HC {
            for d in 0..dim {
                let mut want = p[t * HC + k] * x[t * dim + d];
                for j in 0..HC {
                    want += c[(t * HC + j) * HC + k] * r[(t * HC + j) * dim + d];
                }
                let v = got[(t * HC + k) * dim + d];
                assert!((v - want).abs() < 1e-5, "{v} vs {want}");
            }
        }
    }
}

/// Without iterations the columns are still normalised once.
#[test]
fn zero_iterations_normalise_columns() {
    let (mixes, scale, base) = golden_inputs();
    let none = hc_split_sinkhorn(&mixes, &scale, &base, HC, 0, EPS.to_bits()).unwrap();
    let one = hc_split_sinkhorn(&mixes, &scale, &base, HC, 1, EPS.to_bits()).unwrap();
    assert_eq!(none.2.data(), one.2.data());
    let c = floats(&none.2);
    for n in 0..2 {
        for b in 0..HC {
            let col: f32 = (0..HC).map(|a| c[(n * HC + a) * HC + b]).sum();
            assert!((col - 1.0).abs() < 1e-4);
        }
    }
}

#[test]
fn refuses_other_widths() {
    let (mixes, scale, base) = golden_inputs();
    assert_eq!(
        hc_split_sinkhorn(&mixes, &scale, &base, HC + 1, ITERS, EPS.to_bits()).err(),
        Some(TensorError::Shape)
    );
    let hc = mixer(8);
    let x = det_at(HC, 7, 0).reshape(vec![1, 1, HC, 7]).unwrap();
    assert_eq!(hc.pre(&x).err(), Some(TensorError::Shape));
}

/// A token is collapsed and expanded by itself.
#[test]
fn streams_are_mixed_per_token() {
    let (s, dim) = (3usize, 4usize);
    let hc = mixer(dim);
    let x = det_at(s * HC, dim, 17).reshape(vec![1, s, HC, dim]).unwrap();
    let (collapsed, post, comb) = hc.pre(&x).unwrap();
    let out = hc.post(&collapsed, &x, &post, &comb).unwrap();
    for t in 0..s {
        let token = x.narrow(1, t, 1).unwrap();
        let (c, p, m) = hc.pre(&token).unwrap();
        let name = format!("token {t}");
        assert_close(&floats(&c), &floats(&collapsed.narrow(1, t, 1).unwrap()), 1e-6, &name);
        assert_close(&floats(&p), &floats(&post.narrow(1, t, 1).unwrap()), 1e-6, &name);
        assert_close(&floats(&m), &floats(&comb.narrow(1, t, 1).unwrap()), 1e-6, &name);
        let o = hc.post(&c, &token, &p, &m).unwrap();
        assert_close(&floats(&o), &floats(&out.narrow(1, t, 1).unwrap()), 1e-6, &name);
    }
}
