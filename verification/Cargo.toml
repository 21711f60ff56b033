[package]
name = "thyme"
version = "0.4.0"
edition = "2021"
publish = false

[dependencies]
pulldown-cmark = { version = "0.8", default-features = false }
parking_lot = "0.11"
log = "0.4"
serde = { version = "1", features = ["derive"] }
serde_yaml = "0.8"
