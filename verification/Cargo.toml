[package]
name = "sift"
version = "0.1.0"
edition = "2021"
publish = false

[dependencies]
ahash = "0.8"
regex = "1"
hickory-proto = "*"
parking_lot = "0.12"
jiff = "0.2"
tracing = "0.1"
thiserror = "2"
serde = { version = "1", features = ["derive"] }
tokio = { version = "1", features = ["net", "rt", "time", "io-util", "sync", "macros"] }
quinn = "0.11"
rustls = { version = "0.23", default-features = false, features = ["std", "ring", "tls12"] }
tokio-rustls = { version = "0.26", default-features = false, features = ["ring", "tls12"] }
