[package]
name = "spanning_tree"
version = "0.1.0"
edition = "2021"
publish = false

[dependencies]
ena = "*"
rand = { version = "0.8", features = ["small_rng"] }
