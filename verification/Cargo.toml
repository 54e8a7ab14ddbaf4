[package]
name = "tiny_bit"
version = "0.1.0"
edition = "2021"
publish = false

[dependencies]
resp = "*"
clap = { version = "4", features = ["derive"] }
