[package]
name = "steiner_search"
version = "0.1.0"
edition = "2021"
publish = false

[dependencies]
progress-observer = "=2.2.0"
