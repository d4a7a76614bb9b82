[package]
name = "tssh"
version = "0.1.0"
edition = "2021"
publish = false

[dependencies]
color-eyre = "*"
dirs = "*"
inquire = "*"
once_cell = "*"
serde = { version = "*", features = ["derive"] }
serde_json = "*"
