[package]
name = "statn"
version = "0.1.0"
edition = "2021"
publish = false

[dependencies]
anyhow = "1"
rand = "0.8"
rustc-hash = "*"
serde = { version = "1", features = ["derive"] }
serde_json = "1"
