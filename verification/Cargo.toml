[package]
name = "bid"
version = "0.1.0"
edition = "2021"
publish = false

[dependencies]
getrandom = "0.2"
serde = "1"
thiserror = "2"

[dev-dependencies]
serde_json = "1"
