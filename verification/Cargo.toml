[package]
name = "nano-vllm-rs"
version = "0.1.0"
edition = "2021"
publish = false

[dependencies]
candle-core = "=0.11.0"
