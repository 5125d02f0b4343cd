[package]
name = "shodh_memory"
version = "0.1.0"
edition = "2021"
publish = false

[dependencies]
anyhow = "1"
moka = { version = "0.12", features = ["sync"] }
serde = { version = "1", features = ["derive"] }
serde_json = "1"
tracing = "0.1"
