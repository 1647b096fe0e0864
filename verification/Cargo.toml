[package]
name = "ocastabare"
version = "0.1.0"
edition = "2021"
publish = false

[dependencies]
base64 = "0.21"
serde_json = "1"
getrandom = "0.2"
chrono = "0.4"
http = "0.2"
axum = { version = "0.6", features = ["ws"] }
tokio = { version = "1", features = ["full"] }
reqwest = { version = "0.11", default-features = false }
futures-util = "0.3"
tokio-tungstenite = "0.20"
argh = "0.1"
memory-stats = "1"

[dev-dependencies]
hex = "0.4"
