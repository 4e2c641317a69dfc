[package]
name = "symclass"
version = "0.1.0"
edition = "2021"
publish = false

[dependencies]
colored = "*"
itertools = "*"
serde = { version = "*", features = ["derive"] }
serde_cbor = "*"
serde_json = "*"
