[package]
name = "fvm_amt"
version = "0.1.0"
edition = "2021"
publish = false

[dependencies]
anyhow = "=1.0.104"
cid = "=0.11.3"
fvm_ipld_blockstore = "=0.3.2"
fvm_ipld_encoding = "=0.5.4"
fvm_shared = "=4.8.4"
ipld-core = { version = "=0.4.3", features = ["serde"] }
itertools = "=0.10.5"
multihash-codetable = { version = "=0.2.2", features = ["blake2b"] }
num-traits = "=0.2.19"
