[package]
name = "json_sync"
version = "0.1.0"
edition = "2021"
publish = false

[dependencies]
serde_json = { version = "=1.0.151", features = ["float_roundtrip"] }
clap = "=4.6.7"
glob = "=0.3.4"
