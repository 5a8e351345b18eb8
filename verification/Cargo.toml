[package]
name = "fixparser"
version = "0.1.0"
edition = "2021"
publish = false

[dependencies]
regex = "1"
serde = "1"
serde_json = { version = "1", features = ["preserve_order"] }
