[package]
name = "hardeen_core"
version = "0.1.0"
edition = "2021"
publish = false

[dependencies]
im = "15.1"
itertools = "0.10"
rand = "0.8"
serde = { version = "1", features = ["derive"] }
serde_json = "1"
