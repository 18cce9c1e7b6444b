[package]
name = "paxos"
version = "0.1.0"
edition = "2021"
publish = false

[dependencies]
bytes = { version = "1", features = ["serde"] }
serde = { version = "1", features = ["derive"] }
