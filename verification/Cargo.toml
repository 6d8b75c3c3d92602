[package]
name = "mongo_access"
version = "0.1.0"
edition = "2021"
publish = false

[dependencies]
mongodb = "=3.9.1"
futures-util = "=0.3.34"
rand = { version = "=0.8.8", features = ["small_rng"] }

[dev-dependencies]
tokio = { version = "1", features = ["rt"] }
