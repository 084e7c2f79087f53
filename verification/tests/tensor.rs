//! Tensors, elementwise arithmetic and reductions.

use deepseek_v4_candle::bits::{double_lower, double_negate, lower, widen};
use deepseek_v4_candle::error::TensorError;
use deepseek_v4_candle::nn::{rms_norm, sigmoid, softmax, softmax_dim};
use deepseek_v4_candle::ops;
use deepseek_v4_candle::tensor::Tensor;
use deepseek_v4_candle::topk::top_k;

fn tensor(shape: &[usize], data: &[f32]) -> Tensor {
    Tensor::new(shape.to_vec(), data.iter().map(|v| v.to_bits()).collect()).unwrap()
}

fn floats(t: &Tensor) -> Vec<f32> {
    t.data().iter().map(|b| f32::from_bits(*b)).collect()
}

fn one_by_one(t: &Tensor, want: impl Fn(f32) -> f32, x: &[f32]) {
    for (a, v) in floats(t).iter().zip(x.iter()) {
        let b = want(*v);
        assert!(a.to_bits() == b.to_bits() || (a - b).abs() <= 1e-6 * b.abs().max(1.0), "{a} vs {b}");
    }
}

#[test]
fn elementwise_functions() {
    let v = [0.25f32, 1.0, 2.5, 7.0];
    let x = tensor(&[2, 2], &v);
    one_by_one(&ops::exp(&x), f32::exp, &v);
    one_by_one(&ops::log(&x), f32::ln, &v);
    one_by_one(&ops::sqrt(&x), f32::sqrt, &v);
    one_by_one(&ops::sqr(&x), |a| a * a, &v);
    one_by_one(&ops::recip(&x), |a| 1.0 / a, &v);
    one_by_one(&ops::powf(&x, (-0.5f64).to_bits()), |a| a.powf(-0.5), &v);
    let w = [-3.0f32, -0.5, 0.0, 2.0];
    let y = tensor(&[4], &w);
    one_by_one(&ops::neg(&y), |a| -a, &w);
    one_by_one(&ops::abs(&y), f32::abs, &w);
    one_by_one(&ops::relu(&y), |a| a.max(0.0), &w);
    one_by_one(&ops::silu(&y), |a| a / (1.0 + (-a).exp()), &w);
    one_by_one(&ops::affine(&y, 2.0f64.to_bits(), 0.5f64.to_bits()), |a| 2.0 * a + 0.5, &w);
    one_by_one(&ops::minimum(&y, 1.0f64.to_bits()), |a| a.min(1.0), &w);
    one_by_one(
        &ops::clamp(&y, (-1.0f64).to_bits(), 1.0f64.to_bits()),
        |a| a.clamp(-1.0, 1.0),
        &w,
    );
    one_by_one(&sigmoid(&y), |a| 1.0 / (1.0 + (-a).exp()), &w);
    assert_eq!(ops::exp(&x).dims(), &[2, 2]);
}

#[test]
fn broadcast_arithmetic() {
    let a = tensor(&[2, 3], &[1., 2., 3., 4., 5., 6.]);
    let row = tensor(&[3], &[10., 20., 30.]);
    let column = tensor(&[2, 1], &[2., 4.]);
    let sum = ops::broadcast_add(&a, &row).unwrap();
    assert_eq!(floats(&sum), vec![11., 22., 33., 14., 25., 36.]);
    let product = ops::broadcast_mul(&a, &column).unwrap();
    assert_eq!(floats(&product), vec![2., 4., 6., 16., 20., 24.]);
    let difference = ops::broadcast_sub(&row, &column).unwrap();
    assert_eq!(difference.dims(), &[2, 3]);
    assert_eq!(floats(&difference), vec![8., 18., 28., 6., 16., 26.]);
    let ratio = ops::broadcast_div(&a, &column).unwrap();
    assert_eq!(floats(&ratio), vec![0.5, 1., 1.5, 1., 1.25, 1.5]);
    assert_eq!(ops::broadcast_add(&a, &tensor(&[2], &[1., 2.])).err(), Some(TensorError::Shape));
    assert_eq!(ops::same_add(&a, &row).err(), Some(TensorError::Shape));
    assert_eq!(floats(&ops::same_add(&row, &row).unwrap()), vec![20., 40., 60.]);
    assert_eq!(floats(&ops::same_mul(&row, &row).unwrap()), vec![100., 400., 900.]);
}

/// Added to anything but positive infinity and a NaN, minus infinity stays as it is.
#[test]
fn minus_infinity_closes_a_score() {
    let scores = tensor(&[6], &[0.0, -2.5, f32::MAX, f32::NEG_INFINITY, f32::INFINITY, f32::NAN]);
    let mask = tensor(&[1], &[f32::NEG_INFINITY]);
    let masked = floats(&ops::broadcast_add(&scores, &mask).unwrap());
    assert_eq!(&masked[..4], &[f32::NEG_INFINITY; 4]);
    assert!(masked[4].is_nan() && masked[5].is_nan());
}

#[test]
fn reductions() {
    let a = tensor(&[2, 3], &[1., 5., 3., 4., 2., 9.]);
    let sum = ops::sum_keepdim(&a, 1).unwrap();
    assert_eq!(sum.dims(), &[2, 1]);
    assert_eq!(floats(&sum), vec![9., 15.]);
    assert_eq!(floats(&ops::sum_keepdim(&a, 0).unwrap()), vec![5., 7., 12.]);
    assert_eq!(floats(&ops::mean_keepdim(&a, 1).unwrap()), vec![3., 5.]);
    assert_eq!(floats(&ops::max_keepdim(&a, 1).unwrap()), vec![5., 9.]);
    assert_eq!(floats(&ops::max_keepdim(&a, 0).unwrap()), vec![4., 5., 9.]);
    assert_eq!(ops::sum_keepdim(&a, 2).err(), Some(TensorError::Shape));
}

#[test]
fn matrix_products() {
    let a = tensor(&[2, 3], &[1., 2., 3., 4., 5., 6.]);
    let b = tensor(&[3, 2], &[1., 0., 0., 1., 1., 1.]);
    assert_eq!(floats(&ops::matmul(&a, &b).unwrap()), vec![4., 5., 10., 11.]);
    let w = tensor(&[2, 3], &[1., 0., 1., 0., 1., 1.]);
    assert_eq!(floats(&ops::linear(&a, &w).unwrap()), vec![4., 5., 10., 11.]);
    let x = a.reshape(vec![1, 2, 3]).unwrap();
    let y = ops::linear(&x, &w).unwrap();
    assert_eq!(y.dims(), &[1, 2, 2]);
    assert_eq!(floats(&y), vec![4., 5., 10., 11.]);
    assert_eq!(ops::matmul(&a, &a).err(), Some(TensorError::Shape));
    assert_eq!(ops::linear(&a, &b).err(), Some(TensorError::Shape));
}

#[test]
fn normalisations() {
    let x = tensor(&[1, 2], &[3., 4.]);
    let y = rms_norm(&x, None, 0.0f64.to_bits()).unwrap();
    let rms = 12.5f32.sqrt();
    assert!((floats(&y)[0] - 3.0 / rms).abs() < 1e-6);
    assert!((floats(&y)[1] - 4.0 / rms).abs() < 1e-6);
    let gamma = tensor(&[2], &[2., 0.5]);
    let z = rms_norm(&x, Some(&gamma), 0.0f64.to_bits()).unwrap();
    assert!((floats(&z)[0] - 6.0 / rms).abs() < 1e-6);
    assert!((floats(&z)[1] - 2.0 / rms).abs() < 1e-6);
    let s = tensor(&[2, 2], &[0., 0., 1., 3.]);
    let below = 1f32.exp() + 3f32.exp();
    for t in [softmax(&s, 1).unwrap(), softmax_dim(&s, 1).unwrap()] {
        let v = floats(&t);
        assert!((v[0] - 0.5).abs() < 1e-6 && (v[1] - 0.5).abs() < 1e-6);
        assert!((v[2] - 1f32.exp() / below).abs() < 1e-6);
        assert!((v[3] - 3f32.exp() / below).abs() < 1e-6);
    }
}

#[test]
fn layout_operations() {
    let a = tensor(&[2, 3], &[1., 2., 3., 4., 5., 6.]);
    assert_eq!(floats(&a.swap_axes(0).unwrap()), vec![1., 4., 2., 5., 3., 6.]);
    assert_eq!(floats(&a.narrow(1, 1, 2).unwrap()), vec![2., 3., 5., 6.]);
    assert_eq!(floats(&a.join(&a, 1).unwrap())[0..6], [1., 2., 3., 1., 2., 3.]);
    assert_eq!(floats(&a.pick_rows(&vec![1, 0, 1]).unwrap()), vec![4., 5., 6., 1., 2., 3., 4., 5., 6.]);
    assert_eq!(a.pick_rows(&vec![2]).err(), Some(TensorError::Index));
    assert_eq!(a.unsqueeze(1).unwrap().dims(), &[2, 1, 3]);
    assert_eq!(a.unsqueeze(1).unwrap().squeeze(1).unwrap().dims(), &[2, 3]);
    assert_eq!(a.squeeze(0).err(), Some(TensorError::Shape));
    let wide = tensor(&[1, 2], &[7., 8.]).broadcast_as(vec![2, 2]).unwrap();
    assert_eq!(floats(&wide), vec![7., 8., 7., 8.]);
    assert_eq!(a.reshape(vec![5]).err(), Some(TensorError::Shape));
    assert_eq!(a.narrow(1, 2, 2).err(), Some(TensorError::Shape));
    assert_eq!(Tensor::new(vec![2, 2], vec![0; 3]).err(), Some(TensorError::Shape));
    assert_eq!(Tensor::full(vec![usize::MAX, 2], 0).err(), Some(TensorError::Shape));
}

/// Patterns are ordered and widened as the numbers that they stand for.
#[test]
fn bit_patterns() {
    let v = [f32::NEG_INFINITY, -2.5, -0.0, 0.0, 1e-40, 1.0, 3.4e38, f32::INFINITY, f32::NAN];
    for a in v {
        for b in v {
            assert_eq!(lower(a.to_bits(), b.to_bits()), a < b, "{a} {b}");
            assert_eq!(double_lower((a as f64).to_bits(), (b as f64).to_bits()), a < b, "{a} {b}");
        }
        let w = f64::from_bits(widen(a.to_bits()));
        assert!(w == a as f64 || (w.is_nan() && a.is_nan()), "{a}");
        let n = f64::from_bits(double_negate((a as f64).to_bits()));
        assert!(n == -(a as f64) || (n.is_nan() && a.is_nan()), "{a}");
    }
}

/// Falling order, earlier positions first among equals.
#[test]
fn best_of_a_range() {
    let v: Vec<u32> = [9.0f32, 1.0, 3.0, 3.0, -1.0, 2.0].iter().map(|x| x.to_bits()).collect();
    assert_eq!(top_k(&v, 1, 5, 3), vec![1, 2, 4]);
    assert_eq!(top_k(&v, 0, 6, 2), vec![0, 2]);
    assert_eq!(top_k(&v, 1, 5, 0), Vec::<usize>::new());
    assert_eq!(top_k(&v, 1, 5, 5), vec![1, 2, 4, 0, 3]);
}
