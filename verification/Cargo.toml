[package]
name = "zk_torch_2"
version = "0.1.0"
edition = "2021"
publish = false

[dependencies]
rand = "=0.8.8"
tiny-keccak = { version = "2", features = ["sha3"] }
