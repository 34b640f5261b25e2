[package]
name = "prune_source"
version = "0.1.0"
edition = "2021"
publish = false

[dependencies]
ruff_python_parser = "=0.0.5"
ruff_python_ast = "=0.0.5"
get-size2 = "=0.10.0"
pyo3 = "=0.30.1"
