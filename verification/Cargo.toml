[package]
name = "wasi-experimental-http-wasmer"
version = "0.1.0"
edition = "2021"
publish = false

[dependencies]
anyhow = "1"
bytes = "=1.12.1"
futures = "0.3"
http = "=0.2.12"
reqwest = { version = "0.11", default-features = false, features = ["blocking", "rustls-tls"] }
thiserror = "1"
tokio = { version = "1", features = ["rt"] }
tracing = "0.1"
url = "=2.5.8"
wasmer = "=2.3.0"
wasmer-wasi = "=2.3.0"
