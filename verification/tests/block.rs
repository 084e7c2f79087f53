//! One decoder layer: its stream shape, and that it looks at the past alone.

use candle_core::{DType, Device};
use deepseek_v4_candle::attention::Mla;
use deepseek_v4_candle::block::Block;
use deepseek_v4_candle::error::TensorError;
use deepseek_v4_candle::mhc::Hc;
use deepseek_v4_candle::moe::{Expert, Gate, Moe, ScoreFunc};
use deepseek_v4_candle::rope::Rope;
use deepseek_v4_candle::tensor::Tensor;

const DIM: usize = 8;
const HC: usize = 2;
const H: usize = 2;
const HD: usize = 4;
const RD: usize = 2;
const QLR: usize = 4;
const G: usize = 2;
const OLR: usize = 2;
const NROUTED: usize = 4;
const TOPK: usize = 2;
const INTER: usize = 4;
const MIXHC: usize = (2 + HC) * HC;
const ITERS: usize = 20;

fn tensor(shape: &[usize], data: &[f32]) -> Tensor {
    Tensor::new(shape.to_vec(), data.iter().map(|v| v.to_bits()).collect()).unwrap()
}

fn floats(t: &Tensor) -> Vec<f32> {
    t.data().iter().map(|b| f32::from_bits(*b)).collect()
}

/// `0.3 * sin(0.7 * (start + k) + 1)` at element `k` of an `[o, i]` tensor.
fn det_at(o: usize, i: usize, start: i64) -> Tensor {
    let n = (o * i) as i64;
    let values = candle_core::Tensor::arange(start, start + n, &Device::Cpu)
        .unwrap()
        .to_dtype(DType::F32)
        .unwrap()
        .affine(0.7, 1.0)
        .unwrap()
        .sin()
        .unwrap()
        .affine(0.3, 0.0)
        .unwrap()
        .to_vec1::<f32>()
        .unwrap();
    tensor(&[o, i], &values)
}

fn ones(n: usize) -> Tensor {
    Tensor::full(vec![n], 1.0f32.to_bits()).unwrap()
}

/// Plain rotary tables.
fn plain_rope(dim: usize, max_seq: usize) -> Rope {
    Rope::new(
        dim,
        max_seq,
        0,
        10000.0f64.to_bits(),
        1.0f64.to_bits(),
        32.0f64.to_bits(),
        1.0f64.to_bits(),
    )
    .unwrap()
}

/// Sliding-window attention.
fn toy_mla() -> Mla {
    Mla {
        wq_a: det_at(QLR, DIM, 1),
        q_norm: ones(QLR),
        wq_b: det_at(H * HD, QLR, 11),
        wkv: det_at(HD, DIM, 23),
        kv_norm: ones(HD),
        wo_a: det_at(G * OLR, (H * HD) / G, 31),
        wo_b: det_at(DIM, G * OLR, 43),
        attn_sink: det_at(1, H, 7).reshape(vec![H]).unwrap(),
        n_heads: H,
        head_dim: HD,
        rope_head_dim: RD,
        n_groups: G,
        o_lora_rank: OLR,
        window_size: 128,
        compress_ratio: 0,
        compressor: None,
        indexer: None,
        eps: 1e-6f64.to_bits(),
        scale: (HD as f64).powf(-0.5).to_bits(),
    }
}

/// Four routed experts, two of them kept, and a shared one.
fn toy_moe() -> Moe {
    let expert = |o: i64| Expert {
        w1: det_at(INTER, DIM, o),
        w3: det_at(INTER, DIM, o + 20),
        w2: det_at(DIM, INTER, o + 40),
        swiglu_limit: 0.0f64.to_bits(),
    };
    Moe {
        gate: Gate {
            weight: det_at(NROUTED, DIM, 300),
            bias: Some(det_at(1, NROUTED, 311).reshape(vec![NROUTED]).unwrap()),
            topk: TOPK,
            route_scale: 1.5f64.to_bits(),
            score_func: ScoreFunc::SqrtSoftplus,
        },
        experts: (0..NROUTED).map(|i| expert(100 + (i as i64) * 50)).collect(),
        shared: expert(400),
    }
}

fn toy_hc(start: i64) -> Hc {
    Hc {
        hc_fn: det_at(MIXHC, HC * DIM, start),
        hc_base: det_at(1, MIXHC, start + 97).reshape(vec![MIXHC]).unwrap(),
        hc_scale: tensor(&[3], &[1.0f32, 1.0, 1.0]),
        hc: HC,
        sinkhorn_iters: ITERS,
        eps: 1e-6f64.to_bits(),
        norm_eps: 1e-6f64.to_bits(),
    }
}

fn toy_block() -> Block {
    Block {
        attn: toy_mla(),
        ffn: toy_moe(),
        attn_norm: ones(DIM),
        ffn_norm: ones(DIM),
        hc_attn: toy_hc(600),
        hc_ffn: toy_hc(700),
        eps: 1e-6f64.to_bits(),
    }
}

#[test]
fn block_output_shape() {
    let block = toy_block();
    let rope = plain_rope(RD, 16);
    let x = det_at(4 * HC, DIM, 800).reshape(vec![1, 4, HC, DIM]).unwrap();
    let out = block.forward(&x, &rope, 0).unwrap();
    assert_eq!(out.dims(), &[1, 4, HC, DIM]);
}

/// The earlier outputs do not depend on the last token, in any stream.
#[test]
fn block_is_causal() {
    let block = toy_block();
    let rope = plain_rope(RD, 16);
    let x = det_at(4 * HC, DIM, 800).reshape(vec![1, 4, HC, DIM]).unwrap();
    let out1 = block.forward(&x, &rope, 0).unwrap();
    let new_last = det_at(HC, DIM, 9001).reshape(vec![1, 1, HC, DIM]).unwrap();
    let x2 = x.narrow(1, 0, 3).unwrap().join(&new_last, 1).unwrap();
    let out2 = block.forward(&x2, &rope, 0).unwrap();
    let a = floats(&out1.narrow(1, 0, 3).unwrap());
    let b = floats(&out2.narrow(1, 0, 3).unwrap());
    for (x, y) in a.iter().zip(b.iter()) {
        assert!((x - y).abs() < 1e-5, "block non-causal: earlier output changed {x} vs {y}");
    }
}

#[test]
fn block_refuses_other_shapes() {
    let block = toy_block();
    let rope = plain_rope(RD, 16);
    let x = det_at(4, DIM, 800).reshape(vec![1, 4, DIM]).unwrap();
    assert_eq!(block.forward(&x, &rope, 0).err(), Some(TensorError::Shape));
    let x = det_at(4 * HC, DIM + 1, 800).reshape(vec![1, 4, HC, DIM + 1]).unwrap();
    assert_eq!(block.forward(&x, &rope, 0).err(), Some(TensorError::Shape));
    let x = det_at(4 * HC, DIM, 800).reshape(vec![1, 4, HC, DIM]).unwrap();
    assert_eq!(block.forward(&x, &rope, 13).err(), Some(TensorError::Shape));
    assert!(block.forward(&x, &rope, 12).is_ok());
}
