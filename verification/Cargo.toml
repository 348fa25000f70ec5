[package]
name = "block_blast"
version = "0.1.0"
edition = "2021"
publish = false

[dependencies]
clap = { version = "*", features = ["derive"] }
mimalloc = "*"
ndarray = "*"
scan-rules = "*"
tracing = "*"
tracing-subscriber = { version = "*", features = ["env-filter"] }
