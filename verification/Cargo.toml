[package]
name = "bita"
version = "0.1.0"
edition = "2021"
publish = false

[dependencies]
blake2 = "0.10"
zstd = "*"
tokio = { version = "1", features = ["io-util", "rt"] }
futures-util = "0.3"
log = "0.4"
