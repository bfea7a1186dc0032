[package]
name = "simple_xact"
version = "0.1.0"
edition = "2021"
publish = false

[dependencies]
bigdecimal = "*"
clap = { version = "*", features = ["derive"] }
csv = "*"
serde = { version = "*", features = ["derive"] }
