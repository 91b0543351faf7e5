[package]
name = "eldenring"
version = "0.1.0"
edition = "2021"
publish = false

[dependencies]
pelite = "0.10"
