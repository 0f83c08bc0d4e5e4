[package]
name = "lra_stats"
version = "0.1.0"
edition = "2021"
publish = false

[dependencies]
arrow = "*"
atty = "*"
clap = { version = "*", features = ["derive"] }
rust-htslib = { version = "*", default-features = false }
serde = { version = "*", features = ["derive"] }
serde_json = "*"
