[package]
name = "acatrack_rust"
version = "0.1.0"
edition = "2021"
publish = false

[dependencies]
regex = "=1.13.1"
pdfsink-rs = "=0.2.10"
pyo3 = "=0.30.1"
rayon = "=1.12.0"
