[package]
name = "eth_proof"
version = "0.1.0"
edition = "2021"
publish = false

[dependencies]
eth_trie_utils = "=0.4.1"
mpt_trie = "*"
ethers = { version = "=2.0.14", default-features = false }
hex = "=0.4.3"
rand = "=0.8.8"
anyhow = "1"
tokio = { version = "1", features = ["rt-multi-thread", "macros"] }
flexi_logger = "*"
