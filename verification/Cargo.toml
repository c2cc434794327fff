[package]
name = "volt"
version = "0.1.0"
edition = "2021"
publish = false

[dependencies]
dashmap = "*"
priority-queue = "*"
xxhash-rust = { version = "*", features = ["xxh32"] }
serde = { version = "*", features = ["derive"] }
serde_json = "*"
tokio = { version = "*", features = ["full"] }
axum = "*"
tower-http = { version = "*", features = ["cors"] }
tracing = "*"
tracing-subscriber = "*"
