[package]
name = "illumiphysics"
version = "0.1.0"
edition = "2021"
publish = false

[dependencies]
nalgebra = "0.32"
pyo3 = { version = "0.20", features = ["extension-module"] }
