[package]
name = "libxcp"
version = "0.1.0"
edition = "2021"
publish = false

[dependencies]
blake3 = "1"
crossbeam-channel = "0.5"
log = "0.4"
walkdir = "2"
