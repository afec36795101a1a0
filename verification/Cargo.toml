[package]
name = "rnr"
version = "0.1.0"
edition = "2021"
publish = false

[dependencies]
regex = "*"
walkdir = "*"
serde = { version = "*", features = ["derive"] }
serde_json = "*"
tempfile = "*"
anyhow = "*"
any_ascii = "*"
