[package]
name = "liveion_core"
version = "0.1.0"
edition = "2021"
publish = false

[dependencies]
http = "1"
serde_json = "1"
chrono = "0.4"
serde = { version = "1", features = ["derive"] }
tokio = { version = "1", features = ["full"] }
reqwest = { version = "0.12", default-features = false, features = ["json"] }
axum = "0.8"
tracing = "0.1"
anyhow = "1"
