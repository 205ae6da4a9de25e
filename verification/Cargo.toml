[package]
name = "rocket_search"
version = "0.1.0"
edition = "2021"

[dependencies]
anyhow = "1"
itertools = "*"
serde = { version = "1", features = ["derive"] }
serde_json = "1"
