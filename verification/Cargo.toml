[package]
name = "topology_checker"
version = "0.1.0"
edition = "2021"
publish = false

[dependencies]
blst = "0.3"
quickcheck = "1"
serde = { version = "1", features = ["derive"] }
indexmap = { version = "2", features = ["serde"] }
