[package]
name = "fastproto"
version = "0.1.0"
edition = "2021"
publish = false

[dependencies]
pyo3 = { version = "0.25", features = ["abi3-py312", "extension-module"] }
