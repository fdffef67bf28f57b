[package]
name = "crabstash"
version = "0.1.0"
edition = "2021"
publish = false

[dependencies]
bytes = "1"
crc32fast = "1"
crossbeam-skiplist = "0.1"
dashmap = "6"
eyre = "0.6"
lz4_flex = "0.11"
moka = { version = "0.12", features = ["sync"] }
parking_lot = "0.12"
rapidhash = "1"
tracing = "0.1"
wide = "*"
