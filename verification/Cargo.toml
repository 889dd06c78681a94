[package]
name = "oldworld_launcher"
version = "0.1.0"
edition = "2021"
publish = false

[dependencies]
glob = "0.3"
indexmap = "2"
serde = { version = "1", features = ["derive"] }
serde_json = "1"
tauri = { version = "2", default-features = false }
