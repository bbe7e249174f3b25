[package]
name = "relay"
version = "0.1.0"
edition = "2021"
publish = false

[dependencies]
anyhow = "*"
futures = "*"
reqwest = { version = "*", default-features = false }
serde_json = "*"
tokio = { version = "*", features = ["sync", "rt-multi-thread", "macros", "net"] }
tokio-rustls = { version = "*", default-features = false, features = ["ring", "logging", "tls12"] }
tokio-tungstenite = "*"
tracing = "*"
tracing-subscriber = "*"
