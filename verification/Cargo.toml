[package]
name = "genetic_bf"
version = "0.1.0"
edition = "2021"
publish = false

[dependencies]
rand = "0.8"
clap = "4"
serde = { version = "1", features = ["derive"] }
serde_yaml = "0.9"
