[package]
name = "depsched"
version = "0.1.0"
edition = "2021"
publish = false

[dependencies]
tokio = { version = "1", features = ["rt-multi-thread", "macros", "sync", "time"] }
commonware-runtime = "*"
rand = "0.9"
