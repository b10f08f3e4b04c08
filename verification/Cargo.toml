[package]
name = "dozer_core"
version = "0.1.0"
edition = "2021"
publish = false

[dependencies]
rocksdb = { version = "0.21.0", default-features = false }

[dev-dependencies]
tempdir = "0.3"
