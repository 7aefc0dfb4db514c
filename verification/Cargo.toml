[package]
name = "twm"
version = "0.1.0"
edition = "2021"
publish = false

[dependencies]
walkdir = "2"
anyhow = "1"
