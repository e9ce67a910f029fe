[package]
name = "jpeg_labs"
version = "0.1.0"
edition = "2021"
publish = false

[dependencies]
smallvec = "*"
clap = { version = "*", features = ["derive"] }
tracing-subscriber = "*"
