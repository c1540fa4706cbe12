[package]
name = "websmq"
version = "0.1.0"
edition = "2021"
publish = false

[dependencies]
tokio = { version = "1", features = ["full"] }
tokio-tungstenite = "*"
futures-util = { version = "*", features = ["sink"] }
log = "*"
env_logger = "*"
url = "*"
