[package]
name = "mem_keyvalue"
version = "0.1.0"
edition = "2021"
publish = false

[dependencies]
anyhow = "1"
async-trait = "0.1"
tokio = { version = "1", features = ["io-util", "sync"] }
tracing = "0.1"

[dev-dependencies]
