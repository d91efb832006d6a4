[package]
name = "mpd_protocol"
version = "0.1.0"
edition = "2021"
publish = false

[dependencies]
bytes = "1"
fnv = "1"
tokio = { version = "1", default-features = false, features = ["io-util"] }
tokio-util = { version = "0.7", default-features = false, features = ["codec"] }
tracing = { version = "0.1", default-features = false }
