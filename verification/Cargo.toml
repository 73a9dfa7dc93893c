[package]
name = "fluent_source"
version = "0.1.0"
edition = "2021"
publish = false

[dependencies]
flate2 = "*"
tokio = { version = "*", features = ["rt", "rt-multi-thread", "net", "time", "sync", "io-util", "macros"] }
tokio-util = { version = "*", features = ["codec"] }
futures = "*"
bytes = "*"
listenfd = "*"
socket2 = "*"
serde = { version = "*", features = ["derive"] }
toml = "*"
