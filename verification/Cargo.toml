[package]
name = "riblt_core"
version = "0.1.0"
edition = "2021"
publish = false

[dependencies]
riblt = "*"
pyo3 = "*"
