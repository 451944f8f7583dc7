[package]
name = "rust_hic"
version = "0.1.0"
edition = "2021"
publish = false

[dependencies]
rand = "=0.8.8"
rand_chacha = "=0.3.1"
pyo3 = "=0.29.3"
arrow = "=59.3.0"
