[package]
name = "consensus_core"
version = "0.1.0"
edition = "2021"
publish = false

[dependencies]
bcs = "=0.2.1"
petgraph = "=0.8.3"
serde = { version = "=1.0.229", features = ["derive"] }
