[package]
name = "fast_gpt2"
version = "0.1.0"
edition = "2021"
publish = false

[dependencies]
hex = "0.4"
safetensors = "*"
matrixmultiply = "0.3"
cblas-sys = "*"
libc = "0.2"
jsonrpsee-core = { version = "*", features = ["client"] }
jsonrpsee-http-client = { version = "*", default-features = false }
