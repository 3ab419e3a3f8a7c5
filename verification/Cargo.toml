[package]
name = "poomas"
version = "0.1.0"
edition = "2021"
publish = false

[dependencies]
clap = "*"
lettre = "*"
serde = { version = "*", features = ["derive"] }
toml = "*"
