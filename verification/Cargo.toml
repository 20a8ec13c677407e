[package]
name = "page_writer"
version = "0.1.0"
edition = "2021"
publish = false

[dependencies]
rust-stemmers = "*"
anyhow = "*"
dirs = "*"
toml = "*"
serde = { version = "*", features = ["derive"] }
