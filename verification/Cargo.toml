[package]
name = "qzn3t_pad"
version = "0.1.0"
edition = "2021"
publish = false

[dependencies]
clap = "4"
midir = "0.10"
serde = { version = "1", features = ["derive"] }
serde_json = "1"
