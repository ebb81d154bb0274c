[package]
name = "keyjar"
version = "0.1.0"
edition = "2021"
publish = false

[dependencies]
age = "0.11"
anyhow = "1"
clap = { version = "4", features = ["derive"] }
libc = "0.2"
tempfile = "3"
