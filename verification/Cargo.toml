[package]
name = "mx3"
version = "0.1.0"
edition = "2021"
publish = false

[dependencies]
rand = { version = "0.8", default-features = false }
rand_core = "=0.6.4"
