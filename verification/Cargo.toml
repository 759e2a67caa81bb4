[package]
name = "observed_aggregates"
version = "0.1.0"
edition = "2021"
publish = false

[dependencies]
tree_hash = "0.8"
ethereum_hashing = "0.7"
ethereum-types = "0.14"
itertools = "0.10"
smallvec = "1"
safe_arith = "*"
ssz_types = "0.8"
serde = { version = "1", features = ["derive"] }
ethereum_serde_utils = "0.7"
arbitrary = { version = "1", features = ["derive"] }
