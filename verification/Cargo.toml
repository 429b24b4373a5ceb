[package]
name = "fca"
version = "0.1.0"
edition = "2021"
publish = false

[dependencies]
anyhow = "1"
csv = "1"
ndarray = "0.15"
