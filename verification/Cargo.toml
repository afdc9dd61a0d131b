[package]
name = "donner"
version = "0.1.0"
edition = "2021"
publish = false

[dependencies]
hex = "0.4.3"
serde_json = "1"
ergo-chain-types = { version = "0.15.0", features = ["json"] }
ergo-lib = { version = "0.28.0", features = ["json"] }
ergo-nipopow = "0.15.0"
ergo_avltree_rust = "0.1.1"
sigma-ser = "0.19.0"
