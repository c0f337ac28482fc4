[package]
name = "statelink"
version = "0.1.0"
edition = "2021"
publish = false

[dependencies]
serde = { version = "1", features = ["derive"] }
serde_json = "1"
rmp-serde = "1"
bincode = "1"
bytes = "1"
thiserror = "1"
async-trait = "0.1"
futures-util = "0.3"
tokio = { version = "1", features = ["net"] }
tokio-tungstenite = "*"
