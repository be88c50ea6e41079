[package]
name = "soul_coder"
version = "0.1.0"
edition = "2021"
publish = false

[dependencies]
similar = "*"
soul-core = "*"
async-trait = "*"
serde_json = "*"
tokio = { version = "*", features = ["sync"] }
