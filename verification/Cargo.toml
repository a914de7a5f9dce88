[package]
name = "simd_quickheap"
version = "0.1.0"
edition = "2021"
publish = false

[dependencies]
wide = "=1.7.1"

[dev-dependencies]
rand = "=0.9.5"
