[package]
name = "prism"
version = "0.1.0"
edition = "2021"
publish = false

[dependencies]
bigint = "4"
serde = { version = "1", features = ["derive"] }
serde_json = "1"
