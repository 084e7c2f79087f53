//! Key selection: the key sets of the window and of the compressed blocks, the compressor, the
//! indexer.

use candle_core::Device;
use deepseek_v4_candle::error::TensorError;
use deepseek_v4_candle::rope::Rope;
use deepseek_v4_candle::sparse::{
    compress_topk_idxs, gated_pool, overlap_windows, pick_blocks, window_topk_idxs, Compressor,
    Indexer,
};
use deepseek_v4_candle::tensor::Tensor;

fn tensor(shape: &[usize], data: &[f32]) -> Tensor {
    Tensor::new(shape.to_vec(), data.iter().map(|v| v.to_bits()).collect()).unwrap()
}

fn floats(t: &Tensor) -> Vec<f32> {
    t.data().iter().map(|b| f32::from_bits(*b)).collect()
}

fn assert_close(got: &[f32], want: &[f32], tolerance: f32, name: &str) {
    assert_eq!(got.len(), want.len(), "{name}: length");
    for (k, (a, b)) in got.iter().zip(want.iter()).enumerate() {
        assert!((a - b).abs() < tolerance, "{name}[{k}] = {a}, expected {b}");
    }
}

/// Normally distributed values.
fn randn(shape: &[usize], std: f32) -> Tensor {
    let values = candle_core::Tensor::randn(0f32, std, shape, &Device::Cpu)
        .unwrap()
        .flatten_all()
        .unwrap()
        .to_vec1::<f32>()
        .unwrap();
    tensor(shape, &values)
}

fn ones(n: usize) -> Tensor {
    Tensor::full(vec![n], 1.0f32.to_bits()).unwrap()
}

/// Plain rotary tables.
fn plain_rope(dim: usize, max_seq: usize) -> Rope {
    Rope::new(
        dim,
        max_seq,
        0,
        10000.0f64.to_bits(),
        1.0f64.to_bits(),
        32.0f64.to_bits(),
        1.0f64.to_bits(),
    )
    .unwrap()
}

/// Each value weighs as the softmax of its gate over the block.
#[test]
fn gated_pool_softmax_weights_over_block() {
    let values = tensor(&[1, 1, 2, 2], &[1., 2., 3., 4.]);
    let gates = tensor(&[1, 1, 2, 2], &[0., 1., 0., 0.]);
    let out = gated_pool(&values, &gates).unwrap();
    assert_eq!(out.dims(), &[1, 1, 2]);
    assert_close(&floats(&out), &[2.0_f32, 2.537_882_8], 1e-5, "out");
}

/// Window 3 over 5 positions: query `i` keeps keys `i - 2 ..= i`, padded with `-1`.
#[test]
fn window_idxs_sliding() {
    let idxs = window_topk_idxs(3, 5).unwrap();
    assert_eq!(idxs.dims(), &[5, 3]);
    let golden: Vec<i64> = vec![
        0, -1, -1, //
        0, 1, -1, //
        0, 1, 2, //
        1, 2, 3, //
        2, 3, 4, //
    ];
    assert_eq!(idxs.data(), &golden);
}

/// A sequence shorter than the window sees its whole past.
#[test]
fn window_idxs_shorter_than_window_is_full_causal() {
    let idxs = window_topk_idxs(8, 3).unwrap();
    assert_eq!(idxs.dims(), &[3, 3]);
    let golden: Vec<i64> = vec![
        0, -1, -1, //
        0, 1, -1, //
        0, 1, 2, //
    ];
    assert_eq!(idxs.data(), &golden);
}

/// Ratio 2 over 6 positions, blocks offset to 10: a block is seen once it lies wholly in the past.
#[test]
fn compress_idxs_match_reference() {
    let idxs = compress_topk_idxs(2, 6, 10).unwrap();
    assert_eq!(idxs.dims(), &[6, 3]);
    let golden: Vec<i64> = vec![
        -1, -1, -1, //
        10, -1, -1, //
        10, -1, -1, //
        10, 11, -1, //
        10, 11, -1, //
        10, 11, 12, //
    ];
    assert_eq!(idxs.data(), &golden);
}

/// One block of two tokens, pooled and normalised, without rotation.
#[test]
fn compressor_gated_pool_norm() {
    let id = tensor(&[2, 2], &[1., 0., 0., 1.]);
    let comp = Compressor {
        wkv: id.duplicate(),
        wgate: id,
        ape: tensor(&[2, 2], &[0.0; 4]),
        norm: ones(2),
        compress_ratio: 2,
        head_dim: 2,
        rope_head_dim: 0,
        eps: 1e-6f64.to_bits(),
    };
    let x = tensor(&[1, 2, 2], &[1., 2., 3., 4.]);
    let out = comp.compress(&x, &plain_rope(2, 4)).unwrap();
    assert_eq!(out.dims(), &[1, 1, 2]);
    assert_close(&floats(&out), &[0.836_923_7_f32, 1.139_981_8], 1e-5, "out");
}

fn overlap_compressor() -> Compressor {
    Compressor {
        wkv: tensor(&[4, 2], &[1f32, 0.5, 0.2, 1.0, -0.3, 0.4, 0.6, -0.2]),
        wgate: tensor(&[4, 2], &[0.4f32, -0.1, 0.1, 0.3, -0.2, 0.5, 0.7, 0.0]),
        ape: tensor(
            &[4, 4],
            &[
                0.10f32, -0.20, 0.30, 0.05, -0.15, 0.25, 0.00, 0.40, 0.20, 0.10, -0.30, 0.15, 0.05,
                -0.05, 0.35, -0.10,
            ],
        ),
        norm: ones(2),
        compress_ratio: 4,
        head_dim: 2,
        rope_head_dim: 0,
        eps: 1e-6f64.to_bits(),
    }
}

/// Ratio 4: each block pools its own tokens and those of the block before it.
#[test]
fn compressor_overlap_pool_norm() {
    let comp = overlap_compressor();
    let x = tensor(
        &[1, 8, 2],
        &[
            0.5f32, -0.3, 0.2, 0.8, -0.6, 0.1, 0.9, -0.4, 0.3, 0.7, -0.2, -0.5, 0.4, 0.6, -0.7, 0.2,
        ],
    );
    let out = comp.compress(&x, &plain_rope(2, 8)).unwrap();
    assert_eq!(out.dims(), &[1, 2, 2]);
    let golden = [-0.201_197_2_f32, 1.399_798_8, 1.293_915, 0.570_724_5];
    assert_close(&floats(&out), &golden, 1e-5, "out");
}

fn golden_indexer(index_topk: usize) -> Indexer {
    Indexer {
        wq_b: tensor(&[4, 2], &[0.6f32, -0.3, 0.2, 0.5, -0.4, 0.1, 0.3, 0.7]),
        weights_proj: tensor(&[2, 2], &[0.5f32, -0.2, 0.1, 0.4]),
        compressor: overlap_compressor(),
        n_heads: 2,
        head_dim: 2,
        rope_head_dim: 0,
        index_topk,
        compress_ratio: 4,
        scale: (2f64).powf(-0.5).to_bits(),
    }
}

fn indexer_inputs() -> (Tensor, Tensor) {
    let x = tensor(
        &[1, 12, 2],
        &[
            0.841471f32, 0.745705, -0.44252, -0.982453, -0.083089, 0.938, 0.584917, -0.625071,
            -0.919329, 0.133232, 0.990607, 0.396741, -0.778352, -0.813157, 0.343315, 0.99683,
            0.189987, -0.895187, -0.66891, 0.537322, 0.956376, -0.025663, -0.970106, -0.493341,
        ],
    );
    let qr = tensor(
        &[1, 12, 2],
        &[
            0.354624f32, 1.091157, -0.635803, -0.927317, 0.874763, 0.701901, -1.055635, -0.429875,
            1.166409, 0.129304, -1.199729, 0.179853, 1.153383, -0.477067, -1.030448, 0.742602,
            0.839088, -0.958826, -0.592009, 1.11138, 0.305619, -1.190135, 0.001066, 1.18986,
        ],
    );
    (x, qr)
}

/// Queries 0-2 see no block, 3-6 see block 0 alone, 7-11 pick block 1.
#[test]
fn indexer_selects_topk_blocks() {
    let (x, qr) = indexer_inputs();
    let idxs = golden_indexer(1).select(&x, &qr, &plain_rope(2, 16)).unwrap();
    assert_eq!(idxs.dims(), &[1, 12, 1]);
    let golden: Vec<i64> = vec![-1, -1, -1, 12, 12, 12, 12, 13, 13, 13, 13, 13];
    assert_eq!(idxs.data(), &golden);
}

/// With every block kept, a query sees each block of its past once.
#[test]
fn indexer_keeps_no_more_than_the_visible_blocks() {
    let (x, qr) = indexer_inputs();
    let idxs = golden_indexer(5).select(&x, &qr, &plain_rope(2, 16)).unwrap();
    assert_eq!(idxs.dims(), &[1, 12, 3]);
    for i in 0..12usize {
        let mut row: Vec<i64> = idxs.data()[3 * i..3 * i + 3].to_vec();
        row.sort();
        let seen = (i + 1) / 4;
        let mut want: Vec<i64> = (0..seen).map(|c| 12 + c as i64).collect();
        while want.len() < 3 {
            want.insert(0, -1);
        }
        assert_eq!(row, want, "query {i}");
    }
}

/// Query `i` of a window sees exactly the keys `i - w < j <= i`.
#[test]
fn window_keys() {
    for w in 1..6usize {
        let t = window_topk_idxs(w, 5).unwrap();
        let k = t.dims()[1];
        for i in 0..5usize {
            for j in 0..5usize {
                let listed = t.data()[i * k..(i + 1) * k].contains(&(j as i64));
                assert_eq!(listed, j <= i && i < j + w, "{w} {i} {j}");
            }
        }
    }
    assert_eq!(window_topk_idxs(0, 3).unwrap().dims(), &[3, 0]);
    assert_eq!(window_topk_idxs(3, 0).unwrap().dims(), &[0, 0]);
    assert_eq!(window_topk_idxs(usize::MAX, usize::MAX).err(), Some(TensorError::Shape));
}

/// Block `c` is listed for query `i` exactly when all its tokens lie in the past.
#[test]
fn compressed_keys() {
    for ratio in 1..5usize {
        let t = compress_topk_idxs(ratio, 9, 100).unwrap();
        let k = t.dims()[1];
        assert_eq!(k, 9 / ratio);
        for i in 0..9usize {
            for c in 0..k {
                let listed = t.data()[i * k..(i + 1) * k].contains(&(100 + c as i64));
                assert_eq!(listed, (c + 1) * ratio <= i + 1, "{ratio} {i} {c}");
            }
        }
    }
}

/// The first block's overlap half is the fill value; the others' are the block before.
#[test]
fn first_block_is_filled() {
    let t = tensor(&[1, 2, 1, 4], &[1., 2., 3., 4., 5., 6., 7., 8.]);
    let y = overlap_windows(&t, 2, (-1.0f32).to_bits()).unwrap();
    assert_eq!(y.dims(), &[1, 2, 2, 2]);
    assert_eq!(floats(&y), vec![-1., -1., 3., 4., 1., 2., 7., 8.]);
    assert_eq!(overlap_windows(&ones(4), 2, 0).err(), Some(TensorError::Shape));
}

/// The best block of the past comes first; a block of the future comes out as `-1`.
#[test]
fn picks_blocks_by_score() {
    let inf = f32::NEG_INFINITY;
    let score: Vec<u32> = [inf, inf, 1.0, inf, 1.0, inf, 1.0, 2.0]
        .iter()
        .map(|v: &f32| v.to_bits())
        .collect();
    let got = pick_blocks(&score, 1, 4, 2, 2, 2).unwrap();
    assert_eq!(got.dims(), &[1, 4, 2]);
    assert_eq!(got.data(), &vec![-1i64, -1, 4, -1, 4, -1, 5, 4]);
    let one = pick_blocks(&score, 1, 4, 2, 2, 1).unwrap();
    assert_eq!(one.data(), &vec![-1i64, 4, 4, 5]);
}

/// What the scores of future blocks hold changes no choice.
#[test]
fn selection_ignores_the_future() {
    let bits = |v: &[f32]| -> Vec<u32> { v.iter().map(|x| x.to_bits()).collect() };
    let one = bits(&[0.0, 0.0, 1.0, 0.0, -1.0, 0.0, 1.0, 2.0]);
    let two = bits(&[9.0, f32::INFINITY, 1.0, 9.0, -1.0, f32::NAN, 1.0, 2.0]);
    let a = pick_blocks(&one, 1, 4, 2, 2, 2).unwrap();
    let b = pick_blocks(&two, 1, 4, 2, 2, 2).unwrap();
    assert_eq!(a.data(), b.data());
    assert_eq!(a.data(), &vec![-1i64, -1, 4, -1, 4, -1, 5, 4]);
}

#[test]
fn pooling_refuses_unequal_shapes() {
    assert_eq!(gated_pool(&ones(4), &ones(4)).err(), Some(TensorError::Shape));
    let a = randn(&[1, 1, 2, 2], 1.0);
    let b = randn(&[1, 1, 2, 3], 1.0);
    assert_eq!(gated_pool(&a, &b).err(), Some(TensorError::Shape));
}

/// A sequence is made of whole blocks.
#[test]
fn compressor_refuses_a_remainder() {
    let comp = overlap_compressor();
    let x = randn(&[1, 11, 2], 1.0);
    assert_eq!(comp.compress(&x, &plain_rope(2, 16)).err(), Some(TensorError::Shape));
    assert!(comp.compress(&x.narrow(1, 0, 8).unwrap(), &plain_rope(2, 16)).is_ok());
    let other = randn(&[1, 8, 3], 1.0);
    assert_eq!(comp.compress(&other, &plain_rope(2, 16)).err(), Some(TensorError::Shape));
}

/// Each block is rotated at the position of its first token.
#[test]
fn compressor_rotates_by_block_position() {
    let rope = plain_rope(2, 16);
    let mut comp = overlap_compressor();
    let x = randn(&[1, 8, 2], 1.0);
    let flat = comp.compress(&x, &rope).unwrap();
    comp.rope_head_dim = 2;
    let turned = comp.compress(&x, &rope).unwrap();
    let want = rope
        .apply_at(&flat.reshape(vec![1, 2, 1, 2]).unwrap(), &vec![0, 4], false)
        .unwrap();
    assert_eq!(turned.data(), want.data());
}

/// A block changes with its own tokens and, where blocks overlap, with those of the block before it.
#[test]
fn blocks_are_local() {
    for ratio in [2usize, 4] {
        let comp = if ratio == 4 {
            overlap_compressor()
        } else {
            let mut c = overlap_compressor();
            c.wkv = c.wkv.narrow(0, 0, 2).unwrap();
            c.wgate = c.wgate.narrow(0, 0, 2).unwrap();
            c.ape = tensor(&[2, 2], &[0.1f32, -0.2, 0.3, 0.05]);
            c.compress_ratio = 2;
            c
        };
        let rope = plain_rope(2, 16);
        let values: Vec<f32> = (0..4 * ratio * 2).map(|k| (0.7 * k as f32 + 1.0).sin()).collect();
        let before = floats(&comp.compress(&tensor(&[1, 4 * ratio, 2], &values), &rope).unwrap());
        for p in 0..4usize {
            let mut other = values.clone();
            for v in &mut other[p * ratio * 2..(p + 1) * ratio * 2] {
                *v += 0.5;
            }
            let after = floats(&comp.compress(&tensor(&[1, 4 * ratio, 2], &other), &rope).unwrap());
            for c in 0..4usize {
                let reached = c == p || (ratio == 4 && c == p + 1);
                let gap = (0..2).map(|d| (before[2 * c + d] - after[2 * c + d]).abs()).sum::<f32>();
                if reached {
                    assert!(gap > 1e-4, "block {c} ignores tokens of {p} at ratio {ratio}");
                } else {
                    assert!(gap < 1e-6, "block {c} depends on tokens of {p} at ratio {ratio}");
                }
            }
        }
    }
}
