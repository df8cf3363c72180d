[package]
name = "scrunch"
version = "0.1.0"
edition = "2021"
publish = false

[dependencies]
clap = "3"
image = "*"
serde = { version = "*", features = ["derive"] }
serde_json = "*"
