[package]
name = "fabriken"
version = "0.1.0"
edition = "2021"
publish = false

[dependencies]
petgraph = "*"
serde = { version = "1", features = ["derive"] }
serde_yaml = "*"
tokio = { version = "1", features = ["full"] }
anyhow = "1"
axum = "*"
tracing = "*"
tracing-subscriber = "*"
tokio-util = "*"
tonic = "*"
tonic-health = "*"
