[package]
name = "telemt"
version = "0.1.0"
edition = "2021"
publish = false

[dependencies]
hex = "0.4"
mimalloc = { version = "0.1", default-features = false }
parking_lot = "0.12"
rustls = { version = "0.23", default-features = false, features = ["ring", "std", "tls12"] }
tokio = { version = "1", features = ["rt", "rt-multi-thread", "macros", "sync", "time", "signal"] }
tracing = "0.1"
