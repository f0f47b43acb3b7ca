[package]
name = "discv5"
version = "0.1.0"
edition = "2021"
publish = false

[dependencies]
tokio = { version = "*", features = ["net", "sync", "macros", "rt", "time"] }
parking_lot = "*"
rlp = "*"
log = "*"
