//! Rotary embeddings: the interpolated frequencies, and what any rotation keeps.
//!
//! Eight dimensions, base 10000, trained on 64 positions, factor 16, ramp from 32 to 1 turns.

use candle_core::Device;
use deepseek_v4_candle::error::TensorError;
use deepseek_v4_candle::rope::{rope_tail, rope_tail_at, Rope};
use deepseek_v4_candle::tensor::Tensor;

const DIM: usize = 8;
const BASE: f64 = 10000.0;
const ORIG: usize = 64;
const FACTOR: f64 = 16.0;
const BETA_FAST: f64 = 32.0;
const BETA_SLOW: f64 = 1.0;
const MAX_SEQ: usize = 8;

fn rope_of(dim: usize, max_seq: usize, orig: usize, base: f64, factor: f64, fast: f64, slow: f64) -> Rope {
    Rope::new(dim, max_seq, orig, base.to_bits(), factor.to_bits(), fast.to_bits(), slow.to_bits()).unwrap()
}

fn toy_rope() -> Rope {
    rope_of(DIM, MAX_SEQ, ORIG, BASE, FACTOR, BETA_FAST, BETA_SLOW)
}

fn tensor(shape: &[usize], data: &[f32]) -> Tensor {
    Tensor::new(shape.to_vec(), data.iter().map(|v| v.to_bits()).collect()).unwrap()
}

fn floats(t: &Tensor) -> Vec<f32> {
    t.data().iter().map(|b| f32::from_bits(*b)).collect()
}

/// Normally distributed values.
fn randn(shape: &[usize], std: f32) -> Tensor {
    let values = candle_core::Tensor::randn(0f32, std, shape, &Device::Cpu)
        .unwrap()
        .flatten_all()
        .unwrap()
        .to_vec1::<f32>()
        .unwrap();
    tensor(shape, &values)
}

#[test]
fn yarn_freqs_match_reference() {
    let rope = toy_rope();
    assert_eq!(rope.cos().dims(), &[MAX_SEQ, DIM / 2]);
    assert_eq!(rope.sin().dims(), &[MAX_SEQ, DIM / 2]);
    let cos = floats(rope.cos());
    let sin = floats(rope.sin());

    // Position 0 does not rotate.
    for &c in &cos[0..DIM / 2] {
        assert!((c - 1.0).abs() < 1e-5, "cos[0] = {c}, expected 1");
    }
    for &s in &sin[0..DIM / 2] {
        assert!(s.abs() < 1e-6, "sin[0] = {s}, expected 0");
    }

    let gcos = [-0.989_992_5_f32, 0.987_326_7, 0.999_998_2, 0.999_999_98];
    let gsin = [0.14112_f32, 0.158_701_16, 0.001_874_999, 0.000_187_5];
    for i in 0..DIM / 2 {
        let at = 3 * (DIM / 2) + i;
        assert!((cos[at] - gcos[i]).abs() < 1e-5, "cos[3][{i}] = {}, expected {}", cos[at], gcos[i]);
        assert!((sin[at] - gsin[i]).abs() < 1e-5, "sin[3][{i}] = {}, expected {}", sin[at], gsin[i]);
    }
}

#[test]
fn pos0_is_identity() {
    let rope = toy_rope();
    let x = randn(&[1, 2, 1, DIM], 1.0);
    let y = rope.apply(&x, 0, false).unwrap();
    let x0 = floats(&x.narrow(1, 0, 1).unwrap());
    let y0 = floats(&y.narrow(1, 0, 1).unwrap());
    for (a, b) in x0.iter().zip(y0.iter()) {
        assert!((a - b).abs() < 1e-6, "pos-0 changed: {a} -> {b}");
    }
}

#[test]
fn norm_preserved() {
    let rope = toy_rope();
    let x = randn(&[1, 5, 2, DIM], 1.0);
    let y = rope.apply(&x, 0, false).unwrap();
    let nx: f32 = floats(&x).iter().map(|v| v * v).sum();
    let ny: f32 = floats(&y).iter().map(|v| v * v).sum();
    assert!((nx - ny).abs() < 1e-3, "norm not preserved: {nx} vs {ny}");
}

/// Rows at positions 0 and 2 are rotated as the contiguous rotation rotates them there.
#[test]
fn apply_at_uses_per_row_positions() {
    let rope = toy_rope();
    let x = randn(&[1, 2, 1, DIM], 1.0);
    let got = rope.apply_at(&x, &vec![0, 2], false).unwrap();
    let want0 = rope.apply(&x.narrow(1, 0, 1).unwrap(), 0, false).unwrap();
    let want2 = rope.apply(&x.narrow(1, 1, 1).unwrap(), 2, false).unwrap();
    let want = want0.join(&want2, 1).unwrap();
    for (i, (p, q)) in floats(&got).iter().zip(floats(&want).iter()).enumerate() {
        assert!((p - q).abs() < 1e-6, "apply_at mismatch at {i}: {p} vs {q}");
    }
}

#[test]
fn inverse_round_trips() {
    let rope = toy_rope();
    let x = randn(&[1, 4, 2, DIM], 1.0);
    let y = rope.apply(&x, 0, false).unwrap();
    let z = rope.apply(&y, 0, true).unwrap();
    for (a, b) in floats(&x).iter().zip(floats(&z).iter()) {
        assert!((a - b).abs() < 1e-5, "inverse did not round-trip: {a} vs {b}");
    }
}

/// Without a training length the frequencies are the plain powers of the base.
#[test]
fn plain_frequencies() {
    let rope = rope_of(4, 6, 0, 10000.0, 16.0, 32.0, 1.0);
    let cos = floats(rope.cos());
    let sin = floats(rope.sin());
    for p in 0..6 {
        for i in 0..2 {
            let angle = p as f64 * (1.0 / 10000f64.powf(2.0 * i as f64 / 4.0));
            assert!((cos[p * 2 + i] as f64 - angle.cos()).abs() < 1e-6);
            assert!((sin[p * 2 + i] as f64 - angle.sin()).abs() < 1e-6);
        }
    }
}

/// Adjacent elements form the rotated pairs.
#[test]
fn rotates_adjacent_pairs() {
    let rope = rope_of(2, 4, 0, 10000.0, 1.0, 32.0, 1.0);
    let x = tensor(&[1, 2, 1, 2], &[1.0, 0.0, 0.0, 1.0]);
    let y = floats(&rope.apply(&x, 1, false).unwrap());
    let want = [1f32.cos(), 1f32.sin(), -(2f32.sin()), 2f32.cos()];
    for (a, b) in y.iter().zip(want.iter()) {
        assert!((a - b).abs() < 1e-6, "{a} vs {b}");
    }
    let y = floats(&rope.apply(&x, 1, true).unwrap());
    let want = [1f32.cos(), -(1f32.sin()), 2f32.sin(), 2f32.cos()];
    for (a, b) in y.iter().zip(want.iter()) {
        assert!((a - b).abs() < 1e-6, "{a} vs {b}");
    }
}

/// Contiguous positions give the contiguous rotation, bit for bit.
#[test]
fn contiguous_positions() {
    let rope = toy_rope();
    let x = randn(&[2, 3, 2, DIM], 1.0);
    let a = rope.apply(&x, 2, false).unwrap();
    let b = rope.apply_at(&x, &vec![2, 3, 4], false).unwrap();
    assert_eq!(a.data(), b.data());
}

/// In any order, with repetitions, forward and back, a row is rotated as at its own position, bit for
/// bit.
#[test]
fn positions_act_row_by_row() {
    let rope = toy_rope();
    let x = randn(&[2, 4, 2, DIM], 1.0);
    let positions = vec![5, 0, 7, 5];
    for inverse in [false, true] {
        let y = rope.apply_at(&x, &positions, inverse).unwrap();
        for (r, p) in positions.iter().enumerate() {
            let row = rope.apply(&x.narrow(1, r, 1).unwrap(), *p, inverse).unwrap();
            assert_eq!(y.narrow(1, r, 1).unwrap().data(), row.data());
        }
    }
}

/// The head of each vector passes through unchanged.
#[test]
fn tail_keeps_head() {
    let rope = rope_of(4, 8, 0, 10000.0, 1.0, 32.0, 1.0);
    let x = randn(&[1, 3, 2, 6], 1.0);
    let y = rope_tail(&rope, &x, 1, 4, false).unwrap();
    assert_eq!(y.dims(), x.dims());
    assert_eq!(y.narrow(3, 0, 2).unwrap().data(), x.narrow(3, 0, 2).unwrap().data());
    let tail = rope.apply(&x.narrow(3, 2, 4).unwrap(), 1, false).unwrap();
    assert_eq!(y.narrow(3, 2, 4).unwrap().data(), tail.data());

    let at = rope_tail_at(&rope, &x, &vec![1, 2, 3], 4).unwrap();
    assert_eq!(at.data(), y.data());
    // The tail is as wide as the table rotates.
    assert_eq!(rope_tail(&rope, &x, 0, 2, false).err(), Some(TensorError::Shape));
}

#[test]
fn refuses_positions_beyond_the_table() {
    let rope = toy_rope();
    let x = randn(&[1, 2, 1, DIM], 1.0);
    assert_eq!(rope.apply(&x, MAX_SEQ - 1, false).err(), Some(TensorError::Shape));
    assert!(rope.apply(&x, MAX_SEQ - 2, false).is_ok());
    assert_eq!(rope.apply_at(&x, &vec![0, MAX_SEQ], false).err(), Some(TensorError::Shape));
    assert_eq!(rope.apply_at(&x, &vec![0], false).err(), Some(TensorError::Shape));
    // The rotated width is that of the table.
    assert_eq!(rope.apply(&randn(&[1, 2, 1, 4], 1.0), 0, false).err(), Some(TensorError::Shape));
    assert_eq!(rope.apply(&randn(&[2, 1, DIM], 1.0), 0, false).err(), Some(TensorError::Shape));
}

/// A query at the blank position is multiplied by zeros; any other position beyond the table is
/// refused.
#[test]
fn blank_position_gives_zeros() {
    let rope = toy_rope();
    let x = tensor(&[1, 2, 1, DIM], &[1.0; 2 * DIM]);
    let y = rope.apply_at(&x, &vec![0xFFFF_FFFF, 1], false).unwrap();
    assert_eq!(&floats(&y)[..DIM], &[0.0f32; DIM]);
    let one = rope.apply_at(&x.narrow(1, 1, 1).unwrap(), &vec![1], false).unwrap();
    assert_eq!(&y.data()[DIM..], &one.data()[..]);
    assert_eq!(rope.apply_at(&x, &vec![0xFFFF_FFFE, 1], false).err(), Some(TensorError::Shape));
}

/// The original length may be any that a machine word holds.
#[test]
fn any_original_length() {
    for orig in [ORIG, 1usize << 40, (1usize << 40) + 1, usize::MAX] {
        let rope = rope_of(DIM, 2, orig, BASE, FACTOR, BETA_FAST, BETA_SLOW);
        let bound = |turns: f64| {
            (DIM as f64) * (orig as f64 / (turns * 2.0 * std::f64::consts::PI)).ln()
                / (2.0 * BASE.ln())
        };
        let low = bound(BETA_FAST).floor().max(0.0);
        let high = bound(BETA_SLOW).ceil().min((DIM - 1) as f64);
        let width = if low == high { 0.001 } else { high - low };
        for i in 0..DIM / 2 {
            let f = 1.0 / BASE.powf((2 * i) as f64 / DIM as f64);
            let smooth = 1.0 - ((i as f64 - low) / width).clamp(0.0, 1.0);
            let angle = f / FACTOR * (1.0 - smooth) + f * smooth;
            let got = floats(rope.sin())[DIM / 2 + i];
            assert!((got - angle.sin() as f32).abs() < 1e-6, "{orig} {i}: {got}");
        }
    }
}
