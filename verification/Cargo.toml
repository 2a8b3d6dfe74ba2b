[package]
name = "obmrs"
version = "0.1.0"
edition = "2021"
publish = false

[dependencies]
rust_decimal = { version = "1", features = ["maths"] }

[dev-dependencies]
rand = "0.8"
