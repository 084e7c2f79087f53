//! The DeepSeek-V4 architecture over plain tensors of IEEE bit patterns, with verified structure.

pub mod accepting;
pub mod angles;
pub mod attending;
pub mod attention;
pub mod bits;
pub mod block;
pub mod blocks;
pub mod calls;
pub mod causal;
pub mod config;
pub mod double;
pub mod elements;
pub mod error;
pub mod experts;
pub mod heads;
pub mod json;
pub mod kernel;
pub mod layer;
pub mod layout;
pub mod loader;
pub mod mhc;
pub mod mix;
pub mod mixing;
pub mod mixture;
pub mod model;
pub mod moe;
pub mod nn;
pub mod numbers;
pub mod ops;
pub mod quant;
pub mod queries;
pub mod reading;
pub mod rope;
pub mod selector;
pub mod shape;
pub mod slots;
pub mod sparse;
pub mod stack;
pub mod streams;
pub mod tensor;
pub mod tokens;
pub mod topk;
pub mod values;

pub use config::Config;
