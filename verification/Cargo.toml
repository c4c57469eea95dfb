[package]
name = "gitforge"
version = "0.1.0"
edition = "2021"
publish = false

[dependencies]
dirs = "*"
anyhow = "*"
clap = { version = "*", features = ["derive"] }
serde_json = "*"
reqwest = { version = "*", default-features = false, features = ["blocking"] }
