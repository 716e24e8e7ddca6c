[package]
name = "fastsim"
version = "0.1.0"
edition = "2021"
publish = false

[dependencies]
faer = { version = "*", default-features = false, features = ["std", "linalg", "sparse", "sparse-linalg"] }
num-complex = "*"
pyo3 = { version = "*", features = ["abi3-py39", "extension-module", "num-complex"] }
serde = { version = "1", features = ["derive"] }
serde_json = "1"
