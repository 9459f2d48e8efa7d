[package]
name = "crosswords"
version = "0.1.0"
edition = "2021"
publish = false

[dependencies]
memchr = "2"
anyhow = "1"
clap = { version = "4", features = ["derive"] }
rand = "0.8"
