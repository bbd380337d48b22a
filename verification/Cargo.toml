[package]
name = "dal"
version = "0.1.0"
edition = "2021"
publish = false

[dependencies]
async-compat = "0.2"
async-trait = "0.1"
tokio = { version = "1", features = ["fs", "io-util", "rt", "rt-multi-thread"] }
