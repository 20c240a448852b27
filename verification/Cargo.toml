[package]
name = "vearo"
version = "0.1.0"
edition = "2021"
publish = false

[dependencies]
gemm = "0.18"
cudarc = { version = "0.12", default-features = false, features = ["std", "driver", "cuda-12020"] }
