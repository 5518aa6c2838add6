[package]
name = "symmetric_word_triples"
version = "0.1.0"
edition = "2021"
publish = false

[dependencies]
ahash = "*"
dashmap = "*"
encoding_rs = "*"
encoding_rs_io = "*"
fst = "*"
mimalloc = "*"
radix_trie = "*"
rayon = "*"
