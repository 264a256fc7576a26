[package]
name = "defispring"
version = "0.1.0"
edition = "2021"
publish = false

[dependencies]
starknet-crypto = "0.6"
lazy_static = "1"
tokio = { version = "1", features = ["sync", "macros", "rt"] }
serde = { version = "1", features = ["derive"] }
serde_json = "1"
zip = { version = "0.6", default-features = false, features = ["deflate"] }
