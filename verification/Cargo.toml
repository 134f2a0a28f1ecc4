[package]
name = "hashgraph"
version = "0.1.0"
edition = "2021"
publish = false

[dependencies]
rand = "0.8"
ring = "0.17"
serde = { version = "1", features = ["derive"] }
bincode = "1"
clap = "2"
log = "0.4"
env_logger = "0.10"
rsrpc = "*"
