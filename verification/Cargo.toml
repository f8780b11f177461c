[package]
name = "moose"
version = "0.1.0"
edition = "2021"
publish = false

[dependencies]
anyhow = "1"
async-trait = "0.1"
async_cell = "0.2"
bincode = "1"
dashmap = "5"
ndarray = "0.15"
num-traits = "0.2"
serde = { version = "1", features = ["derive"] }
tokio = { version = "1", features = ["rt", "sync", "time"] }
