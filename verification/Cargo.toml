[package]
name = "rustis"
version = "0.1.0"
edition = "2021"
publish = false

[dependencies]
xxhash-rust = { version = "0.8", features = ["xxh3"] }
rand = "0.9"
axum = "0.8"
tokio = { version = "1", features = ["full"] }
serde = { version = "1", features = ["derive"] }
serde_json = "1"
reqwest = { version = "0.12", default-features = false, features = ["json"] }
