[package]
name = "candle_token_classification"
version = "0.1.0"
edition = "2021"
publish = false

[dependencies]
candle-core = "*"
candle-nn = "*"
candle-transformers = "*"
tokenizers = "*"
serde = { version = "*", features = ["derive"] }
serde_json = "*"
