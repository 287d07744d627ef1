[package]
name = "fast_hilbert"
version = "0.1.0"
edition = "2021"
publish = false

[dev-dependencies]
hilbert_curve = "*"
