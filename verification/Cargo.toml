[package]
name = "qwen3_asr"
version = "0.1.0"
edition = "2021"
publish = false

[dependencies]
anyhow = "1"
tracing = "0.1"
tracing-subscriber = { version = "0.3", features = ["env-filter"] }
tch = { version = "*", default-features = false, features = ["doc-only"] }
