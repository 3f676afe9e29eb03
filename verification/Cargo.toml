[package]
name = "networkinator"
version = "0.1.0"
edition = "2021"
publish = false

[dependencies]
bevy = { version = "=0.17.3", default-features = false, features = ["std"] }
tokio = { version = "=1.54.1", features = ["rt-multi-thread", "net", "sync", "io-util", "time"] }
postcard = { version = "=1.1.3", features = ["use-std"] }
serde = { version = "=1.0.229", features = ["derive"] }
uuid = { version = "=1.29.0", features = ["v4", "serde"] }
erased-serde = "=0.4.11"
