[package]
name = "rs_document"
version = "0.1.0"
edition = "2021"
publish = false

[dependencies]
regex = "1"
rayon = "1"
pyo3 = { version = "0.20", features = ["extension-module"] }
