[package]
name = "cocoball"
version = "0.1.0"
edition = "2021"
publish = false

[dependencies]
serde = { version = "*", features = ["derive"] }
serde_json = "*"
toml = "*"
chrono = { version = "*", features = ["serde"] }
anyhow = "*"
clap = "*"
actix-web = "*"
actix-rt = "*"
askama = "*"
