[package]
name = "lsm_engine"
version = "0.1.0"
edition = "2021"
publish = false

[dependencies]
binary-heap-plus = "*"
tempfile = "*"
thiserror = "*"

[dev-dependencies]
rand = "0.8"
