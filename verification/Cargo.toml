[package]
name = "segment"
version = "0.1.0"
edition = "2021"
publish = false

[dependencies]
atomic_refcell = "0.1"
clap = { version = "3", features = ["derive"] }
env_logger = "0.9"
rocksdb = { version = "0.19", default-features = false }
serde_json = "1"
