[package]
name = "filter_cache_format"
version = "0.1.0"
edition = "2021"
publish = false

[dependencies]
serde = "*"
rmp-serde = "*"
