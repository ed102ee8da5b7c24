[package]
name = "kernel_core"
version = "0.1.0"
edition = "2021"
publish = false

[dependencies]
serde_json = "1"
regex-syntax = "*"
regex = "1"
chrono = "*"
tempfile = "3"
thiserror = "*"
pyo3 = "*"
mlua = { version = "*", features = ["lua54", "vendored"] }
rquickjs = "*"
