[package]
name = "channel_queue"
version = "0.1.0"
edition = "2021"
publish = false

[dependencies]
linked-hash-map = "0.5"
log = "0.4"
rustc-serialize = "0.3"
