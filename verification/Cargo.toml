[package]
name = "nt_client"
version = "0.1.0"
edition = "2021"
publish = false

[dependencies]
thiserror = "1"
serde = { version = "1", features = ["derive"] }
serde_json = "1"
rmp = "0.8"
tokio = { version = "1", features = ["sync", "time"] }
tokio-tungstenite = "*"
