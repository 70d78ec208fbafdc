[package]
name = "count_min_sketch_rs"
version = "0.1.0"
edition = "2021"
publish = false

[dependencies]
ahash = "0.8"
