[package]
name = "sg_patch"
version = "0.1.0"
edition = "2021"
publish = false

[dependencies]
similar = { version = "2", features = ["bytes"] }
strip-ansi-escapes = "0.2"
serde = { version = "1", features = ["derive"] }
serde_json = "1"
serde_yaml = "0.9"
