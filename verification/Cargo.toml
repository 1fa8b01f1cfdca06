[package]
name = "bitfloat"
version = "0.1.0"
edition = "2021"
publish = false

[dependencies]
num-bigint = "0.4"
clap = { version = "4", features = ["derive"] }
