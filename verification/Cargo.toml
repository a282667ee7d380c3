[package]
name = "linehash"
version = "0.1.0"
edition = "2021"
publish = false

[dependencies]
clap = { version = "4", features = ["derive"] }
serde = { version = "1", features = ["derive"] }
serde_json = "1"
similar = "2"
xxhash-rust = { version = "0.8", features = ["xxh32"] }
