[package]
name = "audio2face"
version = "0.1.0"
edition = "2021"
publish = false

[dependencies]
async-trait = "0.1"
bytemuck = "1"
parking_lot = "0.12"
remotemedia-plugin-sdk = "*"
serde = { version = "1", features = ["derive"] }
serde_json = "1"
thiserror = "1"
tokio = { version = "1", features = ["rt", "time"] }
tracing = "0.1"
zip = { version = "2", default-features = false, features = ["deflate"] }
