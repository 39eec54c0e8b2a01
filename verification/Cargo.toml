[package]
name = "atari_8bit_tools"
version = "0.1.0"
edition = "2021"
publish = false

[dependencies]
anyhow = "1"
clap = { version = "4", features = ["derive"] }
figment = { version = "0.10", features = ["toml"] }
regex-lite = "0.1"
serde = { version = "1", features = ["derive"] }
