[package]
name = "orderbook"
version = "0.1.0"
edition = "2021"
publish = false

[dependencies]
chrono = "=0.4.45"
rand = "=0.10.3"
skiplist = "=0.6.0"
tracing = "=0.1.44"
