[package]
name = "sqlitegraph"
version = "0.1.0"
edition = "2021"
publish = false

[dependencies]
ahash = "0.8"
serde_json = "1"
