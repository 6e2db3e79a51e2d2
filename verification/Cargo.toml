[package]
name = "sentinel_core"
version = "0.1.0"
edition = "2021"
publish = false

[dependencies]
uuid = { version = "=1.29.0", features = ["v4", "serde"] }
serde = { version = "=1.0.229", features = ["derive"] }
thiserror = "=2.0.21"
chrono = { version = "=0.4.45", features = ["serde"] }
async-trait = "=0.1.92"
tokio-stream = "=0.1.19"
