[package]
name = "mako"
version = "0.1.0"
edition = "2021"
publish = false

[dependencies]
anyhow = "1"
colored = "2"
futures = "0.3"
hyper = { version = "0.14", features = ["http1", "server", "tcp"] }
hyper-staticfile = "0.9"
hyper-tungstenite = "0.11"
serde_json = "1"
tokio = { version = "1", features = ["full"] }
tungstenite = "0.20"
