[package]
name = "conflict_scanner"
version = "0.1.0"
edition = "2021"
publish = false

[dependencies]
anyhow = "1"
directories = "*"
serde = { version = "1", features = ["derive"] }
thiserror = "*"
toml = "*"
walkdir = "2"
