[package]
name = "kv"
version = "0.1.0"
edition = "2021"
publish = false

[dependencies]
anyhow = "1"
bytes = "1"
flate2 = "1"
futures = "0.3"
rustls-pemfile = "2"
rustls-pki-types = "1"
sled = "0.34"
tokio = { version = "1", features = ["full"] }
tokio-rustls = "0.26"
tracing = "0.1"
tracing-subscriber = "0.3"
