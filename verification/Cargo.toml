[package]
name = "georbf"
version = "0.1.0"
edition = "2021"
publish = false

[dependencies]
faer = { version = "0.24.4", default-features = false, features = ["linalg", "std"] }
