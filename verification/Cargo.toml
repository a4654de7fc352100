[package]
name = "protohackers"
version = "0.1.0"
edition = "2021"
publish = false

[dependencies]
bytes = "*"
clap = { version = "*", features = ["derive"] }
tokio = { version = "*", features = ["net", "io-util", "sync", "rt-multi-thread", "macros"] }
tokio-util = { version = "*", features = ["codec"] }
