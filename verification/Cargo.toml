[package]
name = "word_index"
version = "0.1.0"
edition = "2021"
publish = false

[dependencies]
anyhow = "*"
clap = { version = "*", features = ["derive"] }
crossbeam-channel = "*"
threadpool = "*"
walkdir = "*"

[dev-dependencies]
serde_json = "*"
