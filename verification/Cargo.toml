[package]
name = "bitswap_query"
version = "0.1.0"
edition = "2021"
publish = false

[dependencies]
fnv = "=1.0.7"
cid = "=0.11.3"
libp2p = { version = "=0.54.1", default-features = false }
