[package]
name = "kv-cache-scheduler"
version = "0.1.0"
edition = "2021"
publish = false

[dependencies]
linked-hash-map = "0.5"
thiserror = "2"
