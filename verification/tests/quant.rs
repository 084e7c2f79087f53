//! Decoders and block-scaled weights. Every expected value is derived by hand from
//! `(-1)^S * (1 + M / 2^m) * 2^(E - bias)`.

use deepseek_v4_candle::quant::{
    bf16_decode, e2m1_decode, e4m3_decode, e8m0_decode, fp4_weight_dequant, fp8_weight_dequant,
    FP4_BLOCK, FP8_BLOCK,
};
use deepseek_v4_candle::tensor::Tensor;

fn value(bits: u32) -> f32 {
    f32::from_bits(bits)
}

fn floats(t: &Tensor) -> Vec<f32> {
    t.data().iter().map(|b| f32::from_bits(*b)).collect()
}

/// All 16 nibbles: three bits of magnitude and a sign.
#[test]
fn e2m1_decodes_full_table() {
    let mag = [0.0f32, 0.5, 1.0, 1.5, 2.0, 3.0, 4.0, 6.0];
    for n in 0u8..8 {
        assert_eq!(value(e2m1_decode(n)), mag[n as usize], "nibble {n:#04x}");
        assert_eq!(value(e2m1_decode(n | 0x08)), -mag[n as usize], "nibble {:#04x}", n | 0x08);
    }
}

/// Bias 7, subnormals at exponent 0, NaN at `0x7F` and `0xFF` alone, 448 the largest.
#[test]
fn e4m3_decodes_known_bytes() {
    assert_eq!(value(e4m3_decode(0x00)), 0.0);
    assert_eq!(value(e4m3_decode(0x38)), 1.0);
    assert_eq!(value(e4m3_decode(0x40)), 2.0);
    assert_eq!(value(e4m3_decode(0x44)), 3.0);
    assert_eq!(value(e4m3_decode(0x7E)), 448.0);
    assert_eq!(value(e4m3_decode(0xC0)), -2.0);
    assert_eq!(value(e4m3_decode(0xB8)), -1.0);
    assert_eq!(value(e4m3_decode(0x01)), 0.001953125);
    assert!(value(e4m3_decode(0x7F)).is_nan());
    assert!(value(e4m3_decode(0xFF)).is_nan());
}

/// An unsigned exponent: `2^(b - 127)`, and NaN at `0xFF`.
#[test]
fn e8m0_decodes_powers_of_two() {
    assert_eq!(value(e8m0_decode(0x7F)), 1.0);
    assert_eq!(value(e8m0_decode(0x80)), 2.0);
    assert_eq!(value(e8m0_decode(0x81)), 4.0);
    assert_eq!(value(e8m0_decode(0x7E)), 0.5);
    assert!(value(e8m0_decode(0xFF)).is_nan());
}

/// The smallest scales are subnormal in single precision.
#[test]
fn e8m0_decodes_every_byte() {
    for b in 0u8..255 {
        assert_eq!(value(e8m0_decode(b)), 2f64.powi(b as i32 - 127) as f32, "byte {b:#04x}");
    }
}

/// Every byte against the formula, in double precision.
#[test]
fn e4m3_decodes_every_byte() {
    for b in 0u8..=255 {
        if b & 0x7F == 0x7F {
            continue;
        }
        let e = ((b >> 3) & 0x0F) as i32;
        let m = (b & 0x07) as f64;
        let size = if e == 0 {
            m / 8.0 * 2f64.powi(-6)
        } else {
            (1.0 + m / 8.0) * 2f64.powi(e - 7)
        };
        let want = if b & 0x80 == 0 { size } else { -size };
        assert_eq!(e4m3_decode(b), (want as f32).to_bits(), "byte {b:#04x}");
    }
}

/// The high bits of a nibble's byte are ignored.
#[test]
fn e2m1_reads_the_low_nibble() {
    for n in 0u8..16 {
        assert_eq!(e2m1_decode(n | 0xF0), e2m1_decode(n));
    }
}

/// A half is the upper half of a single.
#[test]
fn bf16_widens() {
    assert_eq!(value(bf16_decode(0x3F80)), 1.0);
    assert_eq!(value(bf16_decode(0x4000)), 2.0);
    assert_eq!(value(bf16_decode(0x3F00)), 0.5);
    assert_eq!(value(bf16_decode(0xBF80)), -1.0);
    assert_eq!(bf16_decode(0x8000), 0x8000_0000);
}

/// Two column tiles under different scales.
#[test]
fn fp8_weight_dequant_blocks() {
    let weight = [0x38, 0x40, 0x44, 0x48, 0x38, 0x38, 0x40, 0x40];
    let scale = [0x80, 0x7F];
    let got = fp8_weight_dequant(&weight, &scale, 2, 4, 2).unwrap();
    assert_eq!(got.dims(), &[2, 4]);
    assert_eq!(floats(&got), vec![2.0, 4.0, 3.0, 4.0, 2.0, 2.0, 2.0, 2.0]);
}

/// Three rows in tiles of two need two rows of scales.
#[test]
fn fp8_dequant_ceils_block_count() {
    let weight = [0x38, 0x40, 0x38, 0x38, 0x40, 0x40];
    let scale = [0x80, 0x7F];
    let got = fp8_weight_dequant(&weight, &scale, 3, 2, 2).unwrap();
    assert_eq!(floats(&got), vec![2.0, 4.0, 2.0, 2.0, 2.0, 2.0]);
}

/// Two nibbles per byte, the low one first, under one scale per row and block.
#[test]
fn fp4_weight_dequant_blocks() {
    let packed = [0x21, 0x54, 0x93, 0xA7];
    let scale = [0x80, 0x7F, 0x7F, 0x81];
    let got = fp4_weight_dequant(&packed, &scale, 2, 4, 2).unwrap();
    assert_eq!(got.dims(), &[2, 4]);
    assert_eq!(floats(&got), vec![1.0, 2.0, 2.0, 3.0, 1.5, -0.5, 24.0, -4.0]);
}

/// A weight or a scale that is no number makes the element none; zero times a scale is zero.
#[test]
fn fp8_dequant_special_values() {
    let got = fp8_weight_dequant(&[0x7F, 0x38, 0x80, 0x00], &[0x7F], 2, 2, 128).unwrap();
    let v = floats(&got);
    assert!(v[0].is_nan());
    assert_eq!(v[1], 1.0);
    assert_eq!(got.data()[2], 0x8000_0000);
    assert_eq!(got.data()[3], 0);
    let got = fp8_weight_dequant(&[0x38], &[0xFF], 1, 1, 128).unwrap();
    assert!(floats(&got)[0].is_nan());
    // 448 * 2^127 is beyond the largest single, and 2^-9 * 2^-127 is a subnormal one.
    let got = fp8_weight_dequant(&[0x7E, 0xFE], &[0xFE], 1, 2, 128).unwrap();
    assert_eq!(floats(&got), vec![f32::INFINITY, f32::NEG_INFINITY]);
    let got = fp8_weight_dequant(&[0x01], &[0x00], 1, 1, 128).unwrap();
    assert_eq!(floats(&got), vec![2f64.powi(-136) as f32]);
}

/// Each product of a weight and a scale is what the multiplication of singles gives.
#[test]
fn dequantized_products_are_those_of_singles() {
    for w in 0u8..=255 {
        for s in (0u8..=255).step_by(5) {
            let got = fp8_weight_dequant(&[w], &[s], 1, 1, 1).unwrap();
            let want = value(e4m3_decode(w)) * value(e8m0_decode(s));
            let v = floats(&got)[0];
            assert!(v.to_bits() == want.to_bits() || (v.is_nan() && want.is_nan()), "{w} {s}");
        }
    }
    for n in 0u8..16 {
        for s in 0u8..=255 {
            let got = fp4_weight_dequant(&[n], &[s], 1, 2, 2).unwrap();
            let want = value(e2m1_decode(n)) * value(e8m0_decode(s));
            let v = floats(&got)[0];
            assert!(v.to_bits() == want.to_bits() || (v.is_nan() && want.is_nan()), "{n} {s}");
        }
    }
}

#[test]
fn block_sizes() {
    assert_eq!(FP8_BLOCK, 128);
    assert_eq!(FP4_BLOCK, 32);
}
