[package]
name = "fynd_core"
version = "0.1.0"
edition = "2021"
publish = false

[dependencies]
num-bigint = "0.4"
num-traits = "0.2"
tokio = { version = "1", default-features = false, features = ["sync"] }
