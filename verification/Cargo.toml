[package]
name = "hokori"
version = "0.1.0"
edition = "2021"
publish = false

[dependencies]
ahash = "0.8"
clap = { version = "4", features = ["derive"] }
crossbeam-channel = "0.5"
crossbeam-deque = "0.8"
human_bytes = "0.4"
indicatif = "0.17"
libc = "0.2"
serde = { version = "1", features = ["derive"] }
serde_json = "1"
