[package]
name = "spider_engine"
version = "0.1.0"
edition = "2021"
publish = false

[dependencies]
rand = "=0.9.5"
rand_xoshiro = { version = "=0.7.0", features = ["serde"] }
serde = { version = "=1.0.229", features = ["derive"] }
serde_json = "=1.0.151"
crossterm = "=0.29.0"
signal-hook = "=0.3.18"
