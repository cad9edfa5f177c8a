[package]
name = "file_list"
version = "0.1.0"
edition = "2021"
publish = false

[dependencies]
anyhow = "1"
zstd = "0.13"
