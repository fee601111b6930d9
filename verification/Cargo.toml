[package]
name = "orderbook"
version = "0.1.0"
edition = "2021"
publish = false

[dependencies]
tokio = { version = "*", features = ["full"] }
futures = "*"
tokio-stream = "*"
async-stream = "*"
async-trait = "*"
async-tungstenite = { version = "*", features = ["tokio-runtime", "tokio-native-tls"] }
tokio-native-tls = "*"
clap = { version = "*", features = ["derive"] }
log = "*"
pretty_env_logger = "*"
thiserror = "*"
