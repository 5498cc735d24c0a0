[package]
name = "scoped_pools"
version = "0.1.0"
edition = "2021"
publish = false

[dependencies]
prometheus = { version = "*", default-features = false }
r2d2 = "*"
tokio = { version = "1", features = ["rt", "rt-multi-thread", "sync", "time"] }
