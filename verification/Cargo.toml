[package]
name = "rpc_monitor"
version = "0.1.0"
edition = "2021"
publish = false

[dependencies]
axum = "0.6"
chrono = "0.4"
futures = "0.3"
rocksdb = { version = "0.21", default-features = false, features = ["lz4"] }
serde = { version = "1", features = ["derive"] }
serde_json = "1"
tokio = { version = "1", features = ["full"] }
tokio-tungstenite = { version = "0.20", features = ["rustls-tls-webpki-roots"] }
toml = "0.8"
tower-http = { version = "0.4", features = ["fs"] }
url = "2"
