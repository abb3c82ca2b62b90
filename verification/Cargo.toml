[package]
name = "dtm"
version = "0.1.0"
edition = "2021"
publish = false

[dependencies]
serde = { version = "1", features = ["derive"] }
serde_yaml = "0.9"
unicode-width = "*"
crossterm = "*"
