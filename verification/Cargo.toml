[package]
name = "miracle"
version = "0.1.0"
edition = "2021"
publish = false

[dependencies]
lighthouse-protocol = "=6.2.1"
rmp-serde = "=1.3.1"
serde = { version = "=1.0.229", features = ["derive"] }
anyhow = "=1.0.104"
async-tungstenite = { version = "=0.35.0", features = ["tokio-runtime"] }
clap = { version = "=4.6.7", features = ["derive", "env"] }
dashmap = "=6.2.1"
dotenvy = "=0.15.7"
futures = "=0.3.34"
tokio = { version = "=1.54.1", features = ["full"] }
tokio-util = "=0.7.20"
tracing = "=0.1.44"
tracing-subscriber = { version = "=0.3.23", features = ["env-filter"] }
