//! Model hyper-parameters, under the names they have in a checkpoint's `config.json`.

use vstd::prelude::*;

verus! {

/// The hyper-parameters of a model. The real-valued ones are the bit patterns of IEEE doubles.
#[derive(Debug, Clone)]
pub struct Config {
    pub vocab_size: usize,
    pub dim: usize,
    pub moe_inter_dim: usize,
    pub n_layers: usize,
    /// `0` where the file has none.
    pub n_hash_layers: usize,
    /// [`default_mtp_layers`] where the file has none.
    pub n_mtp_layers: usize,
    pub n_heads: usize,
    pub n_routed_experts: usize,
    pub n_shared_experts: usize,
    pub n_activated_experts: usize,
    pub score_func: String,
    pub route_scale: u64,
    pub swiglu_limit: u64,
    pub q_lora_rank: usize,
    pub head_dim: usize,
    pub rope_head_dim: usize,
    pub o_groups: usize,
    pub o_lora_rank: usize,
    pub window_size: usize,
    /// The longest sequence, which sizes the rotary table; [`default_max_seq_len`] where the file
    /// has none.
    pub max_seq_len: usize,
    pub original_seq_len: usize,
    pub rope_theta: u64,
    pub rope_factor: u64,
    pub beta_fast: u64,
    pub beta_slow: u64,
    pub compress_rope_theta: u64,
    pub index_n_heads: usize,
    pub index_head_dim: usize,
    pub index_topk: usize,
    pub hc_mult: usize,
    pub hc_sinkhorn_iters: usize,
    /// [`default_eps`] where the file has none.
    pub hc_eps: u64,
    /// [`default_eps`] where the file has none.
    pub norm_eps: u64,
    /// One compression ratio per layer: `0` for a sliding window, `4` for compressed sparse
    /// attention with a learned indexer, anything else for heavily compressed attention.
    pub compress_ratios: Vec<usize>,
    pub dtype: Option<String>,
    pub scale_fmt: Option<String>,
    pub expert_dtype: Option<String>,
}

/// The number of multi-token prediction layers of a configuration that names none.
pub fn default_mtp_layers() -> (n: usize)
    ensures
        n == 1,
{
    1
}

/// The longest sequence of a configuration that names none.
pub fn default_max_seq_len() -> (n: usize)
    ensures
        n == 4096,
{
    4096
}

/// The epsilon of a configuration that names none: the double closest to one millionth.
pub fn default_eps() -> (bits: u64)
    ensures
        bits == 0x3EB0_C6F7_A0B5_ED8D,
{
    0x3EB0_C6F7_A0B5_ED8D
}

/// The width of the vector that a token's residual streams are mixed by.
pub open spec fn mix_width(hc: int) -> int {
    (2 + hc) * hc
}

impl Config {
    /// The width of the mixing vector for the configured number of residual streams.
    pub fn mix_hc(&self) -> (n: usize)
        requires
            mix_width(self.hc_mult as int) <= usize::MAX,
        ensures
            n == mix_width(self.hc_mult as int),
    {
        proof {
            if self.hc_mult > 0 {
                assert((2 + self.hc_mult) * self.hc_mult >= 2 + self.hc_mult) by (nonlinear_arith)
                    requires
                        self.hc_mult >= 1,
                ;
            }
        }
        (2 + self.hc_mult) * self.hc_mult
    }
}

/// A mixing vector holds one pre-weight and one post-weight per stream and a square combination
/// matrix, and nothing else.
pub proof fn law_mix_width_parts(hc: int)
    ensures
        mix_width(hc) == hc + hc + hc * hc,
{
    assert((2 + hc) * hc == hc + hc + hc * hc) by (nonlinear_arith);
}

} // verus!
