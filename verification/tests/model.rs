//! The language-model head and the assembled model.

use candle_core::{DType, Device};
use deepseek_v4_candle::attention::Mla;
use deepseek_v4_candle::block::Block;
use deepseek_v4_candle::error::TensorError;
use deepseek_v4_candle::mhc::Hc;
use deepseek_v4_candle::model::{Head, TokenIds, Transformer};
use deepseek_v4_candle::moe::{Expert, Gate, Moe, ScoreFunc};
use deepseek_v4_candle::rope::Rope;
use deepseek_v4_candle::tensor::Tensor;

const DIM: usize = 8;
const HC: usize = 2;
const H: usize = 2;
const HD: usize = 4;
const RD: usize = 2;
const QLR: usize = 4;
const G: usize = 2;
const OLR: usize = 2;
const NROUTED: usize = 4;
const TOPK: usize = 2;
const INTER: usize = 4;
const MIXHC: usize = (2 + HC) * HC;
const ITERS: usize = 20;

const VOCAB: usize = 6;

fn tensor(shape: &[usize], data: &[f32]) -> Tensor {
    Tensor::new(shape.to_vec(), data.iter().map(|v| v.to_bits()).collect()).unwrap()
}

fn floats(t: &Tensor) -> Vec<f32> {
    t.data().iter().map(|b| f32::from_bits(*b)).collect()
}

/// `0.3 * sin(0.7 * (start + k) + 1)` at element `k` of an `[o, i]` tensor.
fn det_at(o: usize, i: usize, start: i64) -> Tensor {
    let n = (o * i) as i64;
    let values = candle_core::Tensor::arange(start, start + n, &Device::Cpu)
        .unwrap()
        .to_dtype(DType::F32)
        .unwrap()
        .affine(0.7, 1.0)
        .unwrap()
        .sin()
        .unwrap()
        .affine(0.3, 0.0)
        .unwrap()
        .to_vec1::<f32>()
        .unwrap();
    tensor(&[o, i], &values)
}

fn ones(n: usize) -> Tensor {
    Tensor::full(vec![n], 1.0f32.to_bits()).unwrap()
}

/// Plain rotary tables.
fn plain_rope(dim: usize, max_seq: usize) -> Rope {
    Rope::new(
        dim,
        max_seq,
        0,
        10000.0f64.to_bits(),
        1.0f64.to_bits(),
        32.0f64.to_bits(),
        1.0f64.to_bits(),
    )
    .unwrap()
}

/// Sliding-window attention.
fn toy_mla() -> Mla {
    Mla {
        wq_a: det_at(QLR, DIM, 1),
        q_norm: ones(QLR),
        wq_b: det_at(H * HD, QLR, 11),
        wkv: det_at(HD, DIM, 23),
        kv_norm: ones(HD),
        wo_a: det_at(G * OLR, (H * HD) / G, 31),
        wo_b: det_at(DIM, G * OLR, 43),
        attn_sink: det_at(1, H, 7).reshape(vec![H]).unwrap(),
        n_heads: H,
        head_dim: HD,
        rope_head_dim: RD,
        n_groups: G,
        o_lora_rank: OLR,
        window_size: 128,
        compress_ratio: 0,
        compressor: None,
        indexer: None,
        eps: 1e-6f64.to_bits(),
        scale: (HD as f64).powf(-0.5).to_bits(),
    }
}

/// Four routed experts, two of them kept, and a shared one.
fn toy_moe() -> Moe {
    let expert = |o: i64| Expert {
        w1: det_at(INTER, DIM, o),
        w3: det_at(INTER, DIM, o + 20),
        w2: det_at(DIM, INTER, o + 40),
        swiglu_limit: 0.0f64.to_bits(),
    };
    Moe {
        gate: Gate {
            weight: det_at(NROUTED, DIM, 300),
            bias: Some(det_at(1, NROUTED, 311).reshape(vec![NROUTED]).unwrap()),
            topk: TOPK,
            route_scale: 1.5f64.to_bits(),
            score_func: ScoreFunc::SqrtSoftplus,
        },
        experts: (0..NROUTED).map(|i| expert(100 + (i as i64) * 50)).collect(),
        shared: expert(400),
    }
}

fn toy_hc(start: i64) -> Hc {
    Hc {
        hc_fn: det_at(MIXHC, HC * DIM, start),
        hc_base: det_at(1, MIXHC, start + 97).reshape(vec![MIXHC]).unwrap(),
        hc_scale: tensor(&[3], &[1.0f32, 1.0, 1.0]),
        hc: HC,
        sinkhorn_iters: ITERS,
        eps: 1e-6f64.to_bits(),
        norm_eps: 1e-6f64.to_bits(),
    }
}

fn toy_block() -> Block {
    Block {
        attn: toy_mla(),
        ffn: toy_moe(),
        attn_norm: ones(DIM),
        ffn_norm: ones(DIM),
        hc_attn: toy_hc(600),
        hc_ffn: toy_hc(700),
        eps: 1e-6f64.to_bits(),
    }
}

fn toy_head() -> Head {
    Head {
        weight: det_at(VOCAB, DIM, 500),
        norm: ones(DIM),
        hc_fn: det_at(HC, HC * DIM, 520),
        hc_base: det_at(1, HC, 560).reshape(vec![HC]).unwrap(),
        hc_scale: tensor(&[1], &[1.0f32]),
        hc: HC,
        eps: 1e-6f64.to_bits(),
        hc_eps: 1e-6f64.to_bits(),
    }
}

fn toy_transformer() -> Transformer {
    Transformer {
        embed: det_at(VOCAB, DIM, 800),
        layers: vec![toy_block()],
        head: toy_head(),
        rope: plain_rope(RD, 16),
        hc: HC,
    }
}

fn ids(shape: &[usize], data: &[u32]) -> TokenIds {
    TokenIds::new(shape.to_vec(), data.to_vec()).unwrap()
}

/// The streams are collapsed, and the last position alone is projected.
#[test]
fn head_matches_reference() {
    let x = det_at(6, 4, 800).reshape(vec![1, 3, 2, 4]).unwrap();
    let head = Head {
        weight: det_at(5, 4, 200),
        norm: det_at(1, 4, 120).reshape(vec![4]).unwrap(),
        hc_fn: det_at(2, 8, 50),
        hc_base: det_at(1, 2, 90).reshape(vec![2]).unwrap(),
        hc_scale: tensor(&[1], &[1.5f32]),
        hc: 2,
        eps: 1e-6f64.to_bits(),
        hc_eps: 1e-6f64.to_bits(),
    };
    let logits = head.forward(&x).unwrap();
    assert_eq!(logits.dims(), &[1, 5]);
    let want = [0.149066, -0.091325, 0.023031, 0.047924, -0.113341];
    for (g, w) in floats(&logits).iter().zip(want.iter()) {
        assert!((g - w).abs() < 1e-5, "head logit {g} vs golden {w}");
    }
}

#[test]
fn transformer_output_shape() {
    let logits = toy_transformer().forward(&ids(&[1, 4], &[1, 3, 0, 2]), 0).unwrap();
    assert_eq!(logits.dims(), &[1, VOCAB]);
}

/// A change of an earlier token reaches the logits of the last position.
#[test]
fn transformer_uses_context() {
    let model = toy_transformer();
    let l1 = floats(&model.forward(&ids(&[1, 4], &[1, 3, 0, 2]), 0).unwrap());
    let l2 = floats(&model.forward(&ids(&[1, 4], &[1, 3, 5, 2]), 0).unwrap());
    let changed = l1.iter().zip(l2.iter()).any(|(a, b)| (a - b).abs() > 1e-6);
    assert!(changed, "transformer ignored an earlier-token change: {l1:?} vs {l2:?}");
}

#[test]
fn transformer_matches_reference() {
    let logits = toy_transformer().forward(&ids(&[1, 4], &[1, 3, 0, 2]), 0).unwrap();
    assert_eq!(logits.dims(), &[1, VOCAB]);
    let want = [0.48474, -0.635526, -1.470525, -1.645452, -1.081788, -0.032544];
    for (g, w) in floats(&logits).iter().zip(want.iter()) {
        assert!((g - w).abs() < 1e-4, "transformer logit {g} vs golden {w}");
    }
}

/// The head reads nothing but the last position.
#[test]
fn head_reads_the_last_position() {
    let head = toy_head();
    let x = det_at(3 * HC, DIM, 10).reshape(vec![1, 3, HC, DIM]).unwrap();
    let all = head.forward(&x).unwrap();
    let last = head.forward(&x.narrow(1, 2, 1).unwrap()).unwrap();
    for (a, b) in floats(&all).iter().zip(floats(&last).iter()) {
        assert!((a - b).abs() < 1e-5, "{a} vs {b}");
    }
}

/// A model without layers hands the embedding, copied into every stream, to the head.
#[test]
fn streams_start_equal() {
    let mut model = toy_transformer();
    model.layers = vec![];
    let logits = model.forward(&ids(&[1, 2], &[4, 1]), 0).unwrap();
    let row = model.embed.narrow(0, 1, 1).unwrap();
    let streams = row.join(&row, 0).unwrap().reshape(vec![1, 1, HC, DIM]).unwrap();
    let want = model.head.forward(&streams).unwrap();
    for (a, b) in floats(&logits).iter().zip(floats(&want).iter()) {
        assert!((a - b).abs() < 1e-5, "{a} vs {b}");
    }
}

/// Two sequences give two rows of logits.
#[test]
fn transformer_takes_batches() {
    let model = toy_transformer();
    let both = model.forward(&ids(&[2, 2], &[1, 3, 0, 2]), 0).unwrap();
    assert_eq!(both.dims(), &[2, VOCAB]);
    let first = model.forward(&ids(&[1, 2], &[1, 3]), 0).unwrap();
    let second = model.forward(&ids(&[1, 2], &[0, 2]), 0).unwrap();
    let got = floats(&both);
    for (a, b) in got[..VOCAB].iter().zip(floats(&first).iter()) {
        assert!((a - b).abs() < 1e-5, "{a} vs {b}");
    }
    for (a, b) in got[VOCAB..].iter().zip(floats(&second).iter()) {
        assert!((a - b).abs() < 1e-5, "{a} vs {b}");
    }
}

#[test]
fn transformer_refuses_unknown_tokens() {
    let model = toy_transformer();
    assert_eq!(
        model.forward(&ids(&[1, 2], &[0, VOCAB as u32]), 0).err(),
        Some(TensorError::Index)
    );
    assert_eq!(model.forward(&ids(&[2], &[0, 1]), 0).err(), Some(TensorError::Shape));
    assert_eq!(model.forward(&ids(&[1, 17], &[0; 17]), 0).err(), Some(TensorError::Shape));
}

/// A head takes streams of its own width only.
#[test]
fn head_refuses_other_widths() {
    let head = toy_head();
    let x = det_at(3 * HC, DIM + 1, 10).reshape(vec![1, 3, HC, DIM + 1]).unwrap();
    assert_eq!(head.forward(&x).err(), Some(TensorError::Shape));
    assert_eq!(head.forward(&ones(4)).err(), Some(TensorError::Shape));
}

/// The blank token is embedded as zeros.
#[test]
fn blank_token_is_zeros() {
    let mut model = toy_transformer();
    let mut rows = floats(&model.embed);
    rows[2 * DIM..3 * DIM].fill(0.0);
    model.embed = tensor(&[VOCAB, DIM], &rows);
    let named = model.forward(&ids(&[1, 3], &[1, 2, 4]), 0).unwrap();
    let blank = model.forward(&ids(&[1, 3], &[1, u32::MAX, 4]), 0).unwrap();
    assert_eq!(named.data(), blank.data());
    let unknown = model.forward(&ids(&[1, 3], &[1, u32::MAX - 1, 4]), 0);
    assert_eq!(unknown.err(), Some(TensorError::Index));
}
