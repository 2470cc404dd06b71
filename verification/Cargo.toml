[package]
name = "lumen"
version = "0.1.0"
edition = "2021"
publish = false

[dependencies]
cc = "1"
pyo3 = { version = "=0.30.1", features = ["abi3-py39"] }
