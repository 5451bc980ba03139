[package]
name = "bitt"
version = "0.1.0"
edition = "2021"
publish = false

[dependencies]
url = "2"
tokio = { version = "1", features = ["rt-multi-thread", "macros", "fs", "net", "io-util", "sync"] }
reqwest = { version = "0.12", default-features = false }
