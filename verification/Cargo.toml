[package]
name = "parallel_sparse_trie"
version = "0.1.0"
edition = "2021"
publish = false

[dependencies]
alloy-primitives = "1"
alloy-rlp = "0.3"
alloy-trie = "0.9"
smallvec = "1"
