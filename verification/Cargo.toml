[package]
name = "numbat"
version = "0.1.0"
edition = "2021"
publish = false

[dependencies]
anyhow = "*"
clap = { version = "*", features = ["derive"] }
dirs = "*"
rustyline = "*"
serde = { version = "*", features = ["derive"] }
