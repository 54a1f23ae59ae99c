[package]
name = "weir"
version = "0.1.0"
edition = "2021"
publish = false

[dependencies]
arc-swap = "1"
async-stream = "0.3"
axum = "0.7"
bytes = "1"
dashmap = "6"
futures = "0.3"
notify = "6"
reqwest = { version = "0.12", default-features = false, features = ["stream"] }
serde = { version = "1", features = ["derive"] }
serde_json = "1"
thiserror = "1"
tiktoken-rs = "0.6"
toml = "0.8"
tracing = "0.1"
