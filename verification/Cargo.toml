[package]
name = "nhvsampler"
version = "0.1.0"
edition = "2021"
publish = false

[dependencies]
anyhow = "1"
ebur128 = "*"
rust-ini = "*"
ndarray = { version = "*", features = ["rayon"] }
once_cell = "1"
phastft = "*"
tracing = "0.1"
