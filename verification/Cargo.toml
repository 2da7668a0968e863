[package]
name = "kvs"
version = "0.1.0"
edition = "2021"
publish = false

[dependencies]
clap = "3"
log = "0.4"
serde = { version = "1", features = ["derive"] }
serde_json = "1"
ron = "0.8"
