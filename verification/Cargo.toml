[package]
name = "kafka_clone"
version = "0.1.0"
edition = "2021"
publish = false

[dependencies]
chrono = "0.4"
prost-types = "0.12"
rand = "0.8"
tokio = { version = "1", features = ["rt-multi-thread", "macros", "sync", "time"] }
lazy_static = "1"
