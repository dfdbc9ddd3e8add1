[package]
name = "match_engine_rust"
version = "0.1.0"
edition = "2021"
publish = false

[dependencies]
crossbeam-channel = "0.5"
dashmap = "6"
parking_lot = "0.12"
thiserror = "2"
