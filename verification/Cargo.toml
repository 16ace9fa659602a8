[package]
name = "bittorrent_rust"
version = "0.1.0"
edition = "2021"
publish = false

[dependencies]
eyre = "0.6"
hex = "0.4"
reqwest = { version = "0.12", default-features = false }
serde_urlencoded = "0.7"
sha1 = "0.10"
tokio = { version = "1", features = ["full"] }
tracing = "0.1"
tracing-subscriber = "0.3"
url = "2"
