[package]
name = "ffzf"
version = "0.2.2"
edition = "2021"
publish = false

[dependencies]
chrono = { version = "0.4", default-features = false, features = ["std"] }
pyo3 = "*"
