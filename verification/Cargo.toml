[package]
name = "cobs_io_async"
version = "0.1.0"
edition = "2021"
publish = false

[dependencies]
embedded-io-async = "*"
serde = { version = "1", features = ["derive"] }
tokio = { version = "1", default-features = false, features = ["io-util"] }
