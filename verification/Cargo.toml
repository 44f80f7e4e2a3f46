[package]
name = "streamlog"
version = "0.1.0"
edition = "2021"
publish = false

[dependencies]
anyhow = "*"
iggy = "*"
quinn = "*"
tokio = { version = "*", features = ["rt-multi-thread", "sync", "net", "macros"] }
tracing = "*"
