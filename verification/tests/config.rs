//! Hyper-parameters.

use deepseek_v4_candle::config::{default_eps, default_max_seq_len, default_mtp_layers};
use deepseek_v4_candle::Config;

fn toy(hc_mult: usize) -> Config {
    Config {
        vocab_size: 6,
        dim: 8,
        moe_inter_dim: 4,
        n_layers: 1,
        n_hash_layers: 0,
        n_mtp_layers: default_mtp_layers(),
        n_heads: 2,
        n_routed_experts: 4,
        n_shared_experts: 1,
        n_activated_experts: 2,
        score_func: "sqrtsoftplus".to_string(),
        route_scale: 1.5f64.to_bits(),
        swiglu_limit: 0.0f64.to_bits(),
        q_lora_rank: 4,
        head_dim: 4,
        rope_head_dim: 2,
        o_groups: 2,
        o_lora_rank: 2,
        window_size: 128,
        max_seq_len: default_max_seq_len(),
        original_seq_len: 0,
        rope_theta: 10000.0f64.to_bits(),
        rope_factor: 1.0f64.to_bits(),
        beta_fast: 32.0f64.to_bits(),
        beta_slow: 1.0f64.to_bits(),
        compress_rope_theta: 40000.0f64.to_bits(),
        index_n_heads: 2,
        index_head_dim: 4,
        index_topk: 1,
        hc_mult,
        hc_sinkhorn_iters: 20,
        hc_eps: default_eps(),
        norm_eps: default_eps(),
        compress_ratios: vec![0],
        dtype: None,
        scale_fmt: None,
        expert_dtype: None,
    }
}

#[test]
fn defaults_of_absent_fields() {
    assert_eq!(default_mtp_layers(), 1);
    assert_eq!(default_max_seq_len(), 4096);
    assert_eq!(f64::from_bits(default_eps()), 1e-6);
}

#[test]
fn mixing_vector_width() {
    assert_eq!(toy(4).mix_hc(), 24);
    assert_eq!(toy(2).mix_hc(), 8);
    assert_eq!(toy(1).mix_hc(), 3);
    assert_eq!(toy(0).mix_hc(), 0);
}

/// One pre-weight and one post-weight per stream, and a square matrix.
#[test]
fn mixing_vector_parts() {
    for hc in 0..50 {
        assert_eq!(toy(hc).mix_hc(), hc + hc + hc * hc);
    }
}
