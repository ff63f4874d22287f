[package]
name = "blobkv"
version = "0.1.0"
edition = "2021"
publish = false

[dependencies]
md-5 = "0.10"
base64 = "0.21"
rand = "0.8"
uuid = { version = "1", features = ["v4"] }
hyper = { version = "0.14", features = ["server", "http1", "tcp"] }
tokio = { version = "1", features = ["rt-multi-thread", "macros", "fs", "io-util", "sync", "time", "net"] }
reqwest = { version = "0.11", default-features = false }
serde = { version = "1", features = ["derive"] }
serde_json = "1"
serde-xml-rs = "0.6"
anyhow = "1"
async-trait = "0.1"
