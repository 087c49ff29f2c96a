[package]
name = "test_results_parser"
version = "0.1.0"
edition = "2021"
publish = false

[dependencies]
itertools = "*"
lazy_static = "1"
phf = { version = "0.11", features = ["macros"] }
pyo3 = "0.21"
regex = "1"
