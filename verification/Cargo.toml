[package]
name = "qiskit_core_passes"
version = "0.1.0"
edition = "2021"
publish = false

[dependencies]
pyo3 = "*"
anyhow = "*"
thiserror = "*"
