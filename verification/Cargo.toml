[package]
name = "unknown_order"
version = "0.1.0"
edition = "2021"
publish = false

[dependencies]
rug = { version = "=1.30.0", default-features = false, features = ["integer"] }
rand = "0.8"
