[package]
name = "par_gemm"
version = "0.1.0"
edition = "2021"
publish = false

[dependencies]
rayon = "=1.12.0"
matrixmultiply = "=0.3.11"
matrixmultiply_mt = "=0.2.1"
