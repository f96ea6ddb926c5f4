[package]
name = "gzip"
version = "0.1.0"
edition = "2021"
publish = false

[dependencies]
flate2 = "*"
miniz_oxide = "*"
clap = { version = "*", features = ["derive"] }
