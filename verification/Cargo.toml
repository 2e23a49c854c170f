[package]
name = "chain_core"
version = "0.1.0"
edition = "2021"
publish = false

[dependencies]
bincode = "1.3"
crossbeam = "0.8"
log = "0.4"
rand = "0.8"
ring = "0.17"
serde = { version = "1", features = ["derive"] }
