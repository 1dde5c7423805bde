[package]
name = "mempool_store"
version = "0.1.0"
edition = "2021"
publish = false

[dependencies]
diesel = { version = "1.4", features = ["postgres", "serde_json"] }
failure = "0.1"
hex = "0.4"
serde = { version = "1", features = ["derive"] }
serde_json = "1"
