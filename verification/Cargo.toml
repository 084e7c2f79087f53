[package]
name = "deepseek_v4_candle"
version = "0.1.0"
edition = "2021"
publish = false

[dependencies]
candle-core = "0.9.2"
candle-nn = "0.9.2"
memmap2 = "0.9"
serde = { version = "1", features = ["derive"] }
serde_json = "1"
