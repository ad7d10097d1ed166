[package]
name = "chatpurp"
version = "0.1.0"
edition = "2021"
publish = false

[dependencies]
axum = "=0.8.9"
hyper = { version = "=1.12.0", features = ["http1", "server", "client"] }
hyper-util = { version = "=0.1.21", features = ["tokio", "service"] }
tokio = { version = "=1.54.1", features = ["net", "rt", "macros", "time", "sync", "io-util"] }
serde = { version = "=1.0.229", features = ["derive"] }
serde_json = "=1.0.154"
rustix = { version = "=1.1.6", features = ["fs"] }
time = "=0.3.55"
jsonwebtoken = { version = "=11.1.0", features = ["aws_lc_rs"] }
aws-lc-rs = "=1.19.0"
wasm-bindgen-cli-support = "=0.2.128"
