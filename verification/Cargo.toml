[package]
name = "netsim"
version = "0.1.0"
edition = "2021"
publish = false

[dependencies]
indexmap = "2"
regex = "1"
tokio = { version = "1", features = ["sync"] }
bytes = "1"
tracing = "0.1"
