[package]
name = "h2_fingerprint"
version = "0.1.0"
edition = "2021"
publish = false

[dependencies]
async-trait = "0.1"
once_cell = "1"
tokio = { version = "1", features = ["io-util"] }
