[package]
name = "proxchat"
version = "0.1.0"
edition = "2021"
publish = false

[dependencies]
anyhow = "1"
cpal = "0.13"
magnum-opus = "0.3"
parking_lot = "0.11"
rubato = "0.10"
serde = { version = "1", features = ["derive"] }
serde_json = "1"
