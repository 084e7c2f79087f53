//! Routing, experts and their combination.

use candle_core::{DType, Device};
use deepseek_v4_candle::error::TensorError;
use deepseek_v4_candle::moe::{pick_experts, Expert, Gate, Moe, ScoreFunc};
use deepseek_v4_candle::tensor::Tensor;

fn tensor(shape: &[usize], data: &[f32]) -> Tensor {
    Tensor::new(shape.to_vec(), data.iter().map(|v| v.to_bits()).collect()).unwrap()
}

fn floats(t: &Tensor) -> Vec<f32> {
    t.data().iter().map(|b| f32::from_bits(*b)).collect()
}

fn assert_close(got: &[f32], want: &[f32], tolerance: f32, name: &str) {
    assert_eq!(got.len(), want.len(), "{name}: length");
    for (k, (a, b)) in got.iter().zip(want.iter()).enumerate() {
        assert!((a - b).abs() < tolerance, "{name}[{k}] = {a}, expected {b}");
    }
}

/// `0.3 * sin(0.7 * (start + k) + 1)` at element `k` of an `[o, i]` tensor.
fn det_at(o: usize, i: usize, start: i64) -> Tensor {
    let n = (o * i) as i64;
    let values = candle_core::Tensor::arange(start, start + n, &Device::Cpu)
        .unwrap()
        .to_dtype(DType::F32)
        .unwrap()
        .affine(0.7, 1.0)
        .unwrap()
        .sin()
        .unwrap()
        .affine(0.3, 0.0)
        .unwrap()
        .to_vec1::<f32>()
        .unwrap();
    tensor(&[o, i], &values)
}

/// Three dimensions, four experts of which two are kept.
fn golden_gate() -> Gate {
    Gate {
        weight: tensor(
            &[4, 3],
            &[0.6f32, -0.2, 0.3, -0.4, 0.5, 0.1, 0.2, 0.3, -0.5, 0.1, -0.1, 0.7],
        ),
        bias: Some(tensor(&[4], &[0.05f32, 0.40, -0.30, 0.10])),
        topk: 2,
        route_scale: 1.5f64.to_bits(),
        score_func: ScoreFunc::SqrtSoftplus,
    }
}

fn two_tokens() -> Tensor {
    tensor(&[2, 3], &[0.8f32, -0.5, 0.3, -0.2, 0.9, -0.6])
}

/// The bias moves the selection of both tokens and leaves the weights alone.
#[test]
fn gate_routes_with_bias_selection_prebias_weights() {
    let (weights, indices) = golden_gate().route(&two_tokens()).unwrap();
    assert_eq!(weights.dims(), &[2, 2]);
    assert_eq!(indices.dims(), &[2, 2]);
    assert_eq!(indices.data(), &vec![0i64, 1, 1, 3]);
    let golden = [0.908_507_f32, 0.591_493, 0.884_437, 0.615_563];
    assert_close(&floats(&weights), &golden, 1e-5, "weights");
}

#[test]
fn gate_weights_sum_to_route_scale() {
    let (weights, _) = golden_gate().route(&two_tokens()).unwrap();
    for (i, row) in floats(&weights).chunks(2).enumerate() {
        let s: f32 = row.iter().sum();
        assert!((s - 1.5).abs() < 1e-5, "token {i} weights sum = {s}, expected 1.5");
    }
}

fn golden_expert(limit: f64) -> Expert {
    Expert {
        w1: tensor(&[3, 2], &[0.5f32, -0.3, 0.2, 0.4, -0.6, 0.1]),
        w2: tensor(&[2, 3], &[0.3f32, -0.1, 0.6, 0.2, 0.5, -0.3]),
        w3: tensor(&[3, 2], &[0.1f32, 0.7, -0.2, 0.3, 0.5, -0.4]),
        swiglu_limit: limit.to_bits(),
    }
}

#[test]
fn expert_swiglu_ffn() {
    let x = tensor(&[1, 2], &[0.8f32, -0.4]);
    let y = golden_expert(0.0).forward(&x, None).unwrap();
    assert_eq!(y.dims(), &[1, 2]);
    assert_close(&floats(&y), &[-0.084_712_f32, 0.019_528], 1e-5, "y");
}

/// Both clamps take effect, and the routing weight scales the hidden vector.
#[test]
fn expert_swiglu_clamp_and_weight() {
    let x = tensor(&[1, 2], &[0.8f32, -0.4]);
    let w = tensor(&[1, 1], &[1.25f32]);
    let y = golden_expert(0.3).forward(&x, Some(&w)).unwrap();
    assert_close(&floats(&y), &[-0.056_549_f32, 0.013_195], 1e-5, "y");
}

fn golden_moe() -> Moe {
    let (dim, inter) = (3usize, 3usize);
    let expert = |o: i64| Expert {
        w1: det_at(inter, dim, o),
        w3: det_at(inter, dim, o + 30),
        w2: det_at(dim, inter, o + 60),
        swiglu_limit: 0.0f64.to_bits(),
    };
    Moe {
        gate: golden_gate(),
        experts: (0..4).map(|i| expert(1000 + i * 100)).collect(),
        shared: expert(2000),
    }
}

/// Expert 1 handles both tokens, expert 2 none, the shared one both.
#[test]
fn moe_routes_and_combines() {
    let y = golden_moe().forward(&two_tokens()).unwrap();
    assert_eq!(y.dims(), &[2, 3]);
    let golden = [0.002_387_f32, 0.001_787, -0.004_191, 0.003_381, -0.000_879, -0.002_493];
    assert_close(&floats(&y), &golden, 1e-5, "y");
}

/// The combination is the weighted sum of the routed experts and the shared one.
#[test]
fn moe_is_the_sum_of_its_experts() {
    let moe = golden_moe();
    let x = two_tokens();
    let (weights, indices) = moe.gate.route(&x).unwrap();
    let got = floats(&moe.forward(&x).unwrap());
    for t in 0..2usize {
        let row = x.narrow(0, t, 1).unwrap();
        let mut want = floats(&moe.shared.forward(&row, None).unwrap());
        for k in 0..2usize {
            let e = indices.data()[2 * t + k] as usize;
            let w = weights.narrow(0, t, 1).unwrap().narrow(1, k, 1).unwrap();
            let part = floats(&moe.experts[e].forward(&row, Some(&w)).unwrap());
            for c in 0..3 {
                want[c] += part[c];
            }
        }
        assert_close(&got[3 * t..3 * t + 3], &want, 1e-6, "row");
    }
}

/// Softmax scores are not renormalised; sigmoid scores are.
#[test]
fn gate_score_functions() {
    let mut gate = golden_gate();
    gate.bias = None;
    gate.topk = 4;
    gate.route_scale = 1.0f64.to_bits();
    gate.score_func = ScoreFunc::Softmax;
    let raw: Vec<f32> = {
        let x = floats(&two_tokens());
        let w = floats(&gate.weight);
        (0..8).map(|p| (0..3).map(|c| x[p / 4 * 3 + c] * w[p % 4 * 3 + c]).sum()).collect()
    };
    let (weights, indices) = gate.route(&two_tokens()).unwrap();
    for t in 0..2usize {
        let below: f32 = (0..4).map(|e| raw[4 * t + e].exp()).sum();
        for k in 0..4usize {
            let e = indices.data()[4 * t + k] as usize;
            let want = raw[4 * t + e].exp() / below;
            assert!((floats(&weights)[4 * t + k] - want).abs() < 1e-6);
        }
    }
    gate.score_func = ScoreFunc::Sigmoid;
    let (weights, indices) = gate.route(&two_tokens()).unwrap();
    for t in 0..2usize {
        let sig = |e: usize| 1.0 / (1.0 + (-raw[4 * t + e]).exp());
        let total: f32 = (0..4).map(sig).sum();
        for k in 0..4usize {
            let e = indices.data()[4 * t + k] as usize;
            assert!((floats(&weights)[4 * t + k] - sig(e) / total).abs() < 1e-6);
        }
    }
}

/// The best biased scores in falling order, earlier experts first among equals, and the weights
/// from the scores without the bias.
#[test]
fn picks_experts_in_order() {
    let bits = |v: &[f32]| -> Vec<u32> { v.iter().map(|x| x.to_bits()).collect() };
    let scores = bits(&[0.1, 0.2, 0.3, 0.4, 5.0, 6.0, 7.0, 8.0]);
    let biased = bits(&[1.0, 3.0, 3.0, 2.0, -1.0, -2.0, -0.5, -4.0]);
    let (picked, indices) = pick_experts(&scores, &biased, 2, 4, 3);
    assert_eq!(indices, vec![1i64, 2, 3, 2, 0, 1]);
    assert_eq!(picked, bits(&[0.2, 0.3, 0.4, 7.0, 5.0, 6.0]));
}

/// Every slot goes to exactly one expert: the parts of a token are counted once.
#[test]
fn routing_names_distinct_experts() {
    let mut gate = golden_gate();
    for topk in 1..5usize {
        gate.topk = topk;
        let (_, indices) = gate.route(&two_tokens()).unwrap();
        for row in indices.data().chunks(topk) {
            for (p, e) in row.iter().enumerate() {
                assert!(*e >= 0 && *e < 4);
                assert!(!row[..p].contains(e));
            }
        }
    }
}

#[test]
fn experts_refuse_other_widths() {
    let x = tensor(&[1, 3], &[0.8f32, -0.4, 0.1]);
    assert_eq!(golden_expert(0.0).forward(&x, None).err(), Some(TensorError::Shape));
    let gate = golden_gate();
    assert_eq!(gate.route(&tensor(&[1, 2], &[0.5, 0.5])).err(), Some(TensorError::Shape));
    assert_eq!(
        golden_moe().forward(&tensor(&[1, 2], &[0.5, 0.5])).err(),
        Some(TensorError::Shape)
    );
}

/// A token is routed and transformed by itself.
#[test]
fn tokens_do_not_meet_in_the_mixture() {
    let moe = golden_moe();
    let x = two_tokens();
    let together = moe.forward(&x).unwrap();
    for t in 0..2usize {
        let alone = moe.forward(&x.narrow(0, t, 1).unwrap()).unwrap();
        let row = together.narrow(0, t, 1).unwrap();
        assert_close(&floats(&alone), &floats(&row), 1e-6, "token");
    }
}
