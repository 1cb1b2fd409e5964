[package]
name = "codesm_core"
version = "0.1.0"
edition = "2021"
publish = false

[dependencies]
similar = "2"
ignore = "*"
pyo3 = "*"
