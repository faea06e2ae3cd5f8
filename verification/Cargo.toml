[package]
name = "quake"
version = "0.1.0"
edition = "2021"
publish = false

[dependencies]
serde = "1"
serde_yaml = "0.8"
csv = "1"
walkdir = "2"
