[package]
name = "hynergy"
version = "0.1.0"
edition = "2021"
publish = false

[dependencies]
smallvec = "1"
faer = { version = "*", default-features = false, features = ["std", "sparse-linalg"] }
thiserror = "2"
