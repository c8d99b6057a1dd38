[package]
name = "mempool_graph"
version = "0.1.0"
edition = "2021"
publish = false

[dependencies]
serde_json = "1"
bitcoincore-rpc = "*"
rocket = "0.5"
