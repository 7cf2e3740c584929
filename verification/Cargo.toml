[package]
name = "trace_explorer"
version = "0.1.0"
edition = "2021"
publish = false

[dependencies]
rangemap = "*"
serde = { version = "1", features = ["derive"] }
serde_json = "1"
csv = "1"
itertools = "*"
proc-modules = "*"
