[package]
name = "texture_merger"
version = "0.1.0"
edition = "2021"
publish = false

[dependencies]
png = "=0.18.1"
base64 = "=0.22.1"
serde = { version = "=1.0.229", features = ["derive"] }
serde_json = "=1.0.154"
tauri = { version = "=2.12.5", default-features = false, features = ["wry"] }
tauri-plugin-dialog = { version = "=2.8.4", default-features = false }
