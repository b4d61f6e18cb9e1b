[package]
name = "tagger"
version = "0.1.0"
edition = "2021"
publish = false

[dependencies]
sha2 = "0.10"
hex = "0.4"
serde = { version = "1", features = ["derive"] }
serde_json = "1"
anyhow = "1"
clap = { version = "4", features = ["derive"] }
tokio = { version = "1", features = ["macros", "rt-multi-thread"] }
candle-core = "*"
candle-nn = "*"
candle-transformers = "*"
hf-hub = { version = "*", features = ["tokio"] }
tokenizers = { version = "*", default-features = false, features = ["onig"] }
