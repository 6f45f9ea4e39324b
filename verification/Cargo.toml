[package]
name = "life"
version = "0.1.0"
edition = "2021"

[dependencies]
bracket-terminal = { version = "*", default-features = false, features = ["cross_term"] }
