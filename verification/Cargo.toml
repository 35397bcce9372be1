[package]
name = "ctypes_codec"
version = "0.1.0"
edition = "2021"
publish = false

[dependencies]
pyo3 = "=0.20.3"
pyo3-log = "=0.9.0"
memflow = { version = "=0.2.4", features = ["dummy_mem"] }
cglue = "=0.2.14"
thiserror = "=1.0.69"
