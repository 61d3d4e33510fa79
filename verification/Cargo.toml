[package]
name = "respkv"
version = "0.1.0"
edition = "2021"
publish = false

[dependencies]
tokio = { version = "1", features = ["sync", "rt-multi-thread", "net", "io-util", "time", "macros"] }
