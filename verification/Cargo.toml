[package]
name = "boardgames"
version = "0.1.0"
edition = "2021"
publish = false

[dependencies]
serde = { version = "1", features = ["derive"] }
serde_json = "1"
rustc-hash = "2"

[dev-dependencies]
rand = { version = "0.8", features = ["small_rng"] }
