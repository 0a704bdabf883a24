[package]
name = "take_iter"
version = "0.1.0"
edition = "2021"
publish = false

[dependencies]
pyo3 = "0.21"
numpy = "0.21"

[dev-dependencies]
rmp = "*"
