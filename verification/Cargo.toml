[package]
name = "cargo_why"
version = "0.1.0"
edition = "2021"
publish = false

[dependencies]
cargo_metadata = "0.9"
failure = "0.1"
