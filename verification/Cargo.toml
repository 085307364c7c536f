[package]
name = "balance_withdraw_scheduler"
version = "0.1.0"
edition = "2021"
publish = false

[dependencies]
dashmap = "5.5"
parking_lot = "0.12"
tokio = { version = "1", features = ["rt", "sync"] }
tracing = "0.1"
