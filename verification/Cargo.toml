[package]
name = "rcdu"
version = "0.1.0"
edition = "2021"
publish = false

[dependencies]
compact_str = "0.8"
crossbeam-channel = "0.5"
ratatui = "0.29"
serde_json = "1"
