[package]
name = "tcp_registry"
version = "0.1.0"
edition = "2021"
publish = false

[dependencies]
tokio = { version = "1", features = ["rt-multi-thread", "net", "sync", "time", "io-util", "macros"] }
socket2 = "0.5"
serde = { version = "1", features = ["derive"] }
serde_json = "1"
