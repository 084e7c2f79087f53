//! Sink attention, its key sets, and the attention layer in its three variants.

use candle_core::{DType, Device};
use deepseek_v4_candle::attention::{sdpa_with_sink, sparse_attn, Mla};
use deepseek_v4_candle::error::TensorError;
use deepseek_v4_candle::rope::Rope;
use deepseek_v4_candle::sparse::{Compressor, Indexer};
use deepseek_v4_candle::tensor::{Indices, Tensor};

fn tensor(shape: &[usize], data: &[f32]) -> Tensor {
    Tensor::new(shape.to_vec(), data.iter().map(|v| v.to_bits()).collect()).unwrap()
}

fn floats(t: &Tensor) -> Vec<f32> {
    t.data().iter().map(|b| f32::from_bits(*b)).collect()
}

fn assert_close(got: &[f32], want: &[f32], tolerance: f32, name: &str) {
    assert_eq!(got.len(), want.len(), "{name}: length");
    for (k, (a, b)) in got.iter().zip(want.iter()).enumerate() {
        assert!((a - b).abs() < tolerance, "{name}[{k}] = {a}, expected {b}");
    }
}

/// `0.3 * sin(0.7 * (start + k) + 1)` at element `k` of an `[o, i]` tensor.
fn det_at(o: usize, i: usize, start: i64) -> Tensor {
    let n = (o * i) as i64;
    let values = candle_core::Tensor::arange(start, start + n, &Device::Cpu)
        .unwrap()
        .to_dtype(DType::F32)
        .unwrap()
        .affine(0.7, 1.0)
        .unwrap()
        .sin()
        .unwrap()
        .affine(0.3, 0.0)
        .unwrap()
        .to_vec1::<f32>()
        .unwrap();
    tensor(&[o, i], &values)
}

fn det(o: usize, i: usize) -> Tensor {
    det_at(o, i, 0)
}

/// Normally distributed values.
fn randn(shape: &[usize], std: f32) -> Tensor {
    let values = candle_core::Tensor::randn(0f32, std, shape, &Device::Cpu)
        .unwrap()
        .flatten_all()
        .unwrap()
        .to_vec1::<f32>()
        .unwrap();
    tensor(shape, &values)
}

fn ones(n: usize) -> Tensor {
    Tensor::full(vec![n], 1.0f32.to_bits()).unwrap()
}

/// Plain rotary tables.
fn plain_rope(dim: usize, max_seq: usize) -> Rope {
    Rope::new(
        dim,
        max_seq,
        0,
        10000.0f64.to_bits(),
        1.0f64.to_bits(),
        32.0f64.to_bits(),
        1.0f64.to_bits(),
    )
    .unwrap()
}

fn indices(shape: &[usize], data: &[i64]) -> Indices {
    Indices::new(shape.to_vec(), data.to_vec()).unwrap()
}

/// Two queries of two heads, two keys, one sink per head.
fn toy() -> (Tensor, Tensor, Tensor, u64) {
    let q = tensor(&[1, 2, 2, 2], &[1f32, 0., 0., 1., 1., 1., 2., 0.]);
    let kv = tensor(&[1, 2, 2], &[1f32, 0., 0., 2.]);
    let sink = tensor(&[2], &[0.5f32, -0.3]);
    (q, kv, sink, 2f64.powf(-0.5).to_bits())
}

const DENSE: [f32; 8] =
    [0.551_592_4, 0.0, 0.574_442_5, 0.0, 0.260_345_6, 1.056_021_7, 0.702_631, 0.341_642_73];

#[test]
fn sink_attention_matches_reference() {
    let (q, kv, sink, scale) = toy();
    let o = sdpa_with_sink(&q, &kv, &sink, scale, true).unwrap();
    assert_eq!(o.dims(), &[1, 2, 2, 2]);
    assert_close(&floats(&o), &DENSE, 1e-5, "o");
}

#[test]
fn causal_query0_ignores_later_keys() {
    let (q, kv1, sink, scale) = toy();
    let kv2 = tensor(&[1, 2, 2], &[1f32, 0., 9., -5.]);
    let o1 = sdpa_with_sink(&q, &kv1, &sink, scale, true).unwrap();
    let o2 = sdpa_with_sink(&q, &kv2, &sink, scale, true).unwrap();
    let a = floats(&o1.narrow(1, 0, 1).unwrap());
    let b = floats(&o2.narrow(1, 0, 1).unwrap());
    for (x, y) in a.iter().zip(b.iter()) {
        assert!((x - y).abs() < 1e-6, "causal leak at query 0: {x} vs {y}");
    }
}

/// A query of one head gets what it gets alone.
#[test]
fn a_query_attends_by_itself() {
    let (q, kv, sink, scale) = toy();
    let idxs = indices(&[1, 2, 2], &[1, -1, 0, 1]);
    let o = sparse_attn(&q, &kv, &sink, &idxs, scale).unwrap();
    for i in 0..2usize {
        let row = &idxs.data()[2 * i..2 * i + 2];
        for c in 0..2usize {
            let query = q.narrow(1, i, 1).unwrap().narrow(2, c, 1).unwrap();
            let lane = sink.narrow(0, c, 1).unwrap();
            let alone = sparse_attn(&query, &kv, &lane, &indices(&[1, 1, 2], row), scale).unwrap();
            let want = o.narrow(1, i, 1).unwrap().narrow(2, c, 1).unwrap();
            assert_close(&floats(&alone), &floats(&want), 1e-6, "query");
        }
    }
}

/// The causal key sets give the dense causal result: causality lives in the indices.
#[test]
fn sparse_attn_causal_pattern_matches_dense() {
    let (q, kv, sink, scale) = toy();
    let idxs = indices(&[1, 2, 2], &[0, -1, 0, 1]);
    let o = sparse_attn(&q, &kv, &sink, &idxs, scale).unwrap();
    assert_eq!(o.dims(), &[1, 2, 2, 2]);
    assert_close(&floats(&o), &DENSE, 1e-5, "o");
}

#[test]
fn sparse_attn_ignores_padding() {
    let (q, kv, sink, scale) = toy();
    let tight = indices(&[1, 2, 2], &[0, -1, 0, 1]);
    let padded = indices(&[1, 2, 3], &[0, -1, -1, 0, 1, -1]);
    let o1 = sparse_attn(&q, &kv, &sink, &tight, scale).unwrap();
    let o2 = sparse_attn(&q, &kv, &sink, &padded, scale).unwrap();
    for (x, y) in floats(&o1).iter().zip(floats(&o2).iter()) {
        assert!((x - y).abs() < 1e-6, "padding changed output: {x} vs {y}");
    }
}

/// Only the set of listed keys matters: not their order, and not how often they are listed.
#[test]
fn sparse_attn_depends_on_key_sets() {
    let (q, kv, sink, scale) = toy();
    let a = sparse_attn(&q, &kv, &sink, &indices(&[1, 2, 2], &[0, -1, 0, 1]), scale).unwrap();
    let b = sparse_attn(&q, &kv, &sink, &indices(&[1, 2, 3], &[0, 0, -1, 1, 0, 1]), scale).unwrap();
    assert_eq!(a.data(), b.data());
    let dense = sdpa_with_sink(&q, &kv, &sink, scale, true).unwrap();
    assert_eq!(a.data(), dense.data());
}

/// Without the mask every query sees every key.
#[test]
fn dense_attention_without_mask() {
    let (q, kv, sink, scale) = toy();
    let dense = sdpa_with_sink(&q, &kv, &sink, scale, false).unwrap();
    let all = sparse_attn(&q, &kv, &sink, &indices(&[1, 2, 2], &[0, 1, 1, 0]), scale).unwrap();
    assert_eq!(dense.data(), all.data());
    let (qv, kvv, sv) = (floats(&q), floats(&kv), floats(&sink));
    let s = 2f32.powf(-0.5);
    for h in 0..2usize {
        let score =
            |n: usize| (0..2).map(|d| qv[h * 2 + d] * kvv[n * 2 + d]).sum::<f32>() * s;
        let below = score(0).exp() + score(1).exp() + sv[h].exp();
        for d in 0..2usize {
            let want = (score(0).exp() * kvv[d] + score(1).exp() * kvv[2 + d]) / below;
            assert!((floats(&dense)[h * 2 + d] - want).abs() < 1e-5);
        }
    }
}

#[test]
fn attention_refuses_other_shapes() {
    let (q, kv, sink, scale) = toy();
    assert_eq!(
        sdpa_with_sink(&q, &tensor(&[1, 2, 3], &[0.0; 6]), &sink, scale, true).err(),
        Some(TensorError::Shape)
    );
    assert_eq!(
        sdpa_with_sink(&q, &kv, &tensor(&[3], &[0.0; 3]), scale, true).err(),
        Some(TensorError::Shape)
    );
    assert_eq!(
        sparse_attn(&q, &kv, &sink, &indices(&[2, 2], &[0, -1, 0, 1]), scale).err(),
        Some(TensorError::Shape)
    );
}

const DIM: usize = 16;
const QLR: usize = 8;
const H: usize = 2;
const HD: usize = 8;
const RD: usize = 4;
const G: usize = 2;
const OLR: usize = 4;

fn toy_mla() -> Mla {
    Mla {
        wq_a: randn(&[QLR, DIM], 0.3),
        q_norm: ones(QLR),
        wq_b: randn(&[H * HD, QLR], 0.3),
        wkv: randn(&[HD, DIM], 0.3),
        kv_norm: ones(HD),
        wo_a: randn(&[G * OLR, (H * HD) / G], 0.3),
        wo_b: randn(&[DIM, G * OLR], 0.3),
        attn_sink: randn(&[H], 0.3),
        n_heads: H,
        head_dim: HD,
        rope_head_dim: RD,
        n_groups: G,
        o_lora_rank: OLR,
        window_size: 128,
        compress_ratio: 0,
        compressor: None,
        indexer: None,
        eps: 1e-6f64.to_bits(),
        scale: (HD as f64).powf(-0.5).to_bits(),
    }
}

fn toy_compressor(ratio: usize) -> Compressor {
    let pd = if ratio == 4 { 2 * HD } else { HD };
    Compressor {
        wkv: det_at(pd, DIM, 100),
        wgate: det_at(pd, DIM, 200),
        ape: det_at(ratio, pd, 300),
        norm: ones(HD),
        compress_ratio: ratio,
        head_dim: HD,
        rope_head_dim: RD,
        eps: 1e-6f64.to_bits(),
    }
}

#[test]
fn mla_output_shape() {
    let mla = toy_mla();
    let x = randn(&[1, 3, DIM], 1.0);
    let out = mla.forward(&x, &plain_rope(RD, 8), 0).unwrap();
    assert_eq!(out.dims(), &[1, 3, DIM]);
}

/// With window 2 the outputs 2 and 3 do not depend on position 0.
#[test]
fn mla_windowed_locality() {
    let mut mla = toy_mla();
    mla.window_size = 2;
    let rope = plain_rope(RD, 8);
    let x = randn(&[1, 4, DIM], 1.0);
    let out1 = mla.forward(&x, &rope, 0).unwrap();
    let new_first = randn(&[1, 1, DIM], 1.0);
    let x2 = new_first.join(&x.narrow(1, 1, 3).unwrap(), 1).unwrap();
    let out2 = mla.forward(&x2, &rope, 0).unwrap();
    let a = floats(&out1.narrow(1, 2, 2).unwrap());
    let b = floats(&out2.narrow(1, 2, 2).unwrap());
    for (x, y) in a.iter().zip(b.iter()) {
        assert!((x - y).abs() < 1e-5, "window leak: out[2..4] changed {x} vs {y}");
    }
}

/// The earlier outputs do not depend on the last token.
#[test]
fn mla_is_causal() {
    let mla = toy_mla();
    let rope = plain_rope(RD, 8);
    let x = randn(&[1, 4, DIM], 1.0);
    let out1 = mla.forward(&x, &rope, 0).unwrap();
    let new_last = randn(&[1, 1, DIM], 1.0);
    let x2 = x.narrow(1, 0, 3).unwrap().join(&new_last, 1).unwrap();
    let out2 = mla.forward(&x2, &rope, 0).unwrap();
    let a = floats(&out1.narrow(1, 0, 3).unwrap());
    let b = floats(&out2.narrow(1, 0, 3).unwrap());
    for (x, y) in a.iter().zip(b.iter()) {
        assert!((x - y).abs() < 1e-5, "non-causal: earlier output changed {x} vs {y}");
    }
}

fn toy_mla_hca(ratio: usize, window: usize) -> Mla {
    Mla {
        wq_a: det(QLR, DIM),
        q_norm: ones(QLR),
        wq_b: det_at(H * HD, QLR, 17),
        wkv: det_at(HD, DIM, 29),
        kv_norm: ones(HD),
        wo_a: det_at(G * OLR, (H * HD) / G, 41),
        wo_b: det_at(DIM, G * OLR, 53),
        attn_sink: det_at(1, H, 7).reshape(vec![H]).unwrap(),
        n_heads: H,
        head_dim: HD,
        rope_head_dim: RD,
        n_groups: G,
        o_lora_rank: OLR,
        window_size: window,
        compress_ratio: ratio,
        compressor: Some(toy_compressor(ratio)),
        indexer: None,
        eps: 1e-6f64.to_bits(),
        scale: (HD as f64).powf(-0.5).to_bits(),
    }
}

fn max_diff(a: &Tensor, b: &Tensor) -> f32 {
    floats(a).iter().zip(floats(b).iter()).map(|(x, y)| (x - y).abs()).fold(0f32, f32::max)
}

/// A compressed block carries position 0 to query 3, whose window does not reach it.
#[test]
fn mla_hca_extends_receptive_field() {
    let mla = toy_mla_hca(2, 2);
    let rope = plain_rope(RD, 8);
    let x = det(4, DIM).reshape(vec![1, 4, DIM]).unwrap();
    let out1 = mla.forward(&x, &rope, 0).unwrap();
    let new_first = det_at(1, DIM, 9001).reshape(vec![1, 1, DIM]).unwrap();
    let x2 = new_first.join(&x.narrow(1, 1, 3).unwrap(), 1).unwrap();
    let out2 = mla.forward(&x2, &rope, 0).unwrap();
    let max_diff = max_diff(&out1.narrow(1, 3, 1).unwrap(), &out2.narrow(1, 3, 1).unwrap());
    assert!(max_diff > 1e-4, "compressed block did not extend receptive field: max_diff = {max_diff}");
}

#[test]
fn mla_hca_is_causal() {
    let mla = toy_mla_hca(2, 2);
    let rope = plain_rope(RD, 8);
    let x = det(4, DIM).reshape(vec![1, 4, DIM]).unwrap();
    let out1 = mla.forward(&x, &rope, 0).unwrap();
    let new_last = det_at(1, DIM, 9001).reshape(vec![1, 1, DIM]).unwrap();
    let x2 = x.narrow(1, 0, 3).unwrap().join(&new_last, 1).unwrap();
    let out2 = mla.forward(&x2, &rope, 0).unwrap();
    let a = floats(&out1.narrow(1, 0, 3).unwrap());
    let b = floats(&out2.narrow(1, 0, 3).unwrap());
    for (x, y) in a.iter().zip(b.iter()) {
        assert!((x - y).abs() < 1e-5, "HCA non-causal: earlier output changed {x} vs {y}");
    }
}

#[test]
fn mla_hca_output_shape() {
    let mla = toy_mla_hca(2, 2);
    let x = det(6, DIM).reshape(vec![1, 6, DIM]).unwrap();
    let out = mla.forward(&x, &plain_rope(RD, 8), 0).unwrap();
    assert_eq!(out.dims(), &[1, 6, DIM]);
}

fn toy_indexer() -> Indexer {
    Indexer {
        wq_b: det_at(H * HD, QLR, 61),
        weights_proj: det_at(H, DIM, 67),
        compressor: toy_compressor(4),
        n_heads: H,
        head_dim: HD,
        rope_head_dim: RD,
        index_topk: 1,
        compress_ratio: 4,
        scale: (HD as f64).powf(-0.5).to_bits(),
    }
}

fn toy_mla_csa(window: usize) -> Mla {
    let mut mla = toy_mla_hca(4, window);
    mla.indexer = Some(toy_indexer());
    mla
}

/// The learned selection drops blocks that are visible.
#[test]
fn mla_csa_narrows_to_selected_blocks() {
    let mla_csa = toy_mla_csa(4);
    let mut mla_all = toy_mla_csa(4);
    mla_all.indexer = None;
    let rope = plain_rope(RD, 16);
    let x = det(12, DIM).reshape(vec![1, 12, DIM]).unwrap();
    let o_csa = mla_csa.forward(&x, &rope, 0).unwrap();
    let o_all = mla_all.forward(&x, &rope, 0).unwrap();
    let max_diff = max_diff(&o_csa.narrow(1, 11, 1).unwrap(), &o_all.narrow(1, 11, 1).unwrap());
    assert!(max_diff > 1e-4, "learned selection did not narrow the key set: max_diff = {max_diff}");
}

/// With room for every block the selection drops nothing.
#[test]
fn full_selection_is_no_selection() {
    let mut mla_csa = toy_mla_csa(4);
    let x = det(12, DIM).reshape(vec![1, 12, DIM]).unwrap();
    let rope = plain_rope(RD, 16);
    if let Some(ix) = &mut mla_csa.indexer {
        ix.index_topk = 3;
    }
    let selected = mla_csa.forward(&x, &rope, 0).unwrap();
    mla_csa.indexer = None;
    let all = mla_csa.forward(&x, &rope, 0).unwrap();
    assert!(max_diff(&selected, &all) < 1e-5);
}

#[test]
fn mla_csa_is_causal() {
    let mla = toy_mla_csa(4);
    let rope = plain_rope(RD, 16);
    let x = det(12, DIM).reshape(vec![1, 12, DIM]).unwrap();
    let out1 = mla.forward(&x, &rope, 0).unwrap();
    let new_last = det_at(1, DIM, 9001).reshape(vec![1, 1, DIM]).unwrap();
    let x2 = x.narrow(1, 0, 11).unwrap().join(&new_last, 1).unwrap();
    let out2 = mla.forward(&x2, &rope, 0).unwrap();
    let a = floats(&out1.narrow(1, 0, 11).unwrap());
    let b = floats(&out2.narrow(1, 0, 11).unwrap());
    for (x, y) in a.iter().zip(b.iter()) {
        assert!((x - y).abs() < 1e-5, "CSA non-causal: earlier output changed {x} vs {y}");
    }
}

/// Sequences of a batch do not see each other.
#[test]
fn mla_batches_are_independent() {
    let mla = toy_mla_csa(4);
    let rope = plain_rope(RD, 16);
    let a = det(12, DIM).reshape(vec![1, 12, DIM]).unwrap();
    let b = det_at(12, DIM, 500).reshape(vec![1, 12, DIM]).unwrap();
    let both = mla.forward(&a.join(&b, 0).unwrap(), &rope, 0).unwrap();
    assert_eq!(both.dims(), &[2, 12, DIM]);
    let first = mla.forward(&a, &rope, 0).unwrap();
    let second = mla.forward(&b, &rope, 0).unwrap();
    assert_close(&floats(&both.narrow(0, 0, 1).unwrap()), &floats(&first), 1e-5, "first");
    assert_close(&floats(&both.narrow(0, 1, 1).unwrap()), &floats(&second), 1e-5, "second");
}

#[test]
fn mla_refuses_other_widths() {
    let mla = toy_mla();
    let rope = plain_rope(RD, 8);
    assert_eq!(mla.forward(&randn(&[1, 3, DIM + 1], 1.0), &rope, 0).err(), Some(TensorError::Shape));
    assert_eq!(mla.forward(&randn(&[3, DIM], 1.0), &rope, 0).err(), Some(TensorError::Shape));
    // The sequence runs past the rotary table.
    assert_eq!(mla.forward(&randn(&[1, 9, DIM], 1.0), &rope, 0).err(), Some(TensorError::Shape));
}
