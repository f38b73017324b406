[package]
name = "batch_scheduler"
version = "0.1.0"
edition = "2021"
publish = false

[dependencies]
thiserror = "1"
tracing = "0.1"
