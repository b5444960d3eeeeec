[package]
name = "bson2csv"
version = "0.1.0"
edition = "2021"
publish = false

[dependencies]
anyhow = "1"
arrow-array = "53"
arrow-schema = "53"
bson = "2"
clap = { version = "4", features = ["derive"] }
crossbeam-channel = "0.5"
csv = "1"
parquet = { version = "53", default-features = false, features = ["arrow", "snap", "flate2", "lz4", "zstd"] }
rayon = "1"
