[package]
name = "rollup_core"
version = "0.1.0"
edition = "2021"
publish = false

[dependencies]
sparse-merkle-tree = "*"
blake2b-ref = "*"
anyhow = "1"
async-trait = "0.1"
