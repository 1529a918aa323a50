[package]
name = "async_executors_ext"
version = "0.1.0"
edition = "2021"
publish = false

[dependencies]
nix = "=0.20.0"
crossbeam = "=0.8.5"
dashmap = "=4.0.2"
futures-task = "=0.3.34"
futures-util = { version = "=0.3.34", features = ["channel"] }
minimal-executor = "=0.4.1"
anyhow = "=1.0.104"
tokio = { version = "=1.54.1", features = ["rt", "rt-multi-thread"] }
glommio = "=0.7.0"
