[package]
name = "notegraph"
version = "0.1.0"
edition = "2021"
publish = false

[dependencies]
anyhow = "*"
chrono = { version = "*", features = ["unstable-locales"] }
petgraph = "*"
