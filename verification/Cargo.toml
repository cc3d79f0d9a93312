[package]
name = "racedet"
version = "0.1.0"
edition = "2021"
publish = false

[dependencies]
rand = "0.9"
tokio = { version = "1", features = ["sync", "rt", "time", "macros"] }
futures-executor = "0.3"
futures-util = "0.3"
pin-project = "1"
