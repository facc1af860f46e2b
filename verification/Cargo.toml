[package]
name = "wgsl_modules"
version = "0.1.0"
edition = "2021"
publish = false

[dependencies]
regex-lite = "0.1"
naga = { version = "*", features = ["wgsl-in"] }
