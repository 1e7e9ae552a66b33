[package]
name = "ndjson_filter"
version = "0.1.0"
edition = "2021"
publish = false

[dependencies]
clap = { version = "4", features = ["derive"] }
indicatif = "0.17"
simd-json = "*"
zstd = "*"
