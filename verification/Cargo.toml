[package]
name = "windfire"
version = "0.5.0"
edition = "2021"
publish = false

[dependencies]
regex = "1"
url = "2"
base64 = "0.22"
murmur3 = "0.5"
clap = { version = "4", features = ["derive"] }
tokio = { version = "1", features = ["rt-multi-thread", "macros", "sync", "time"] }
futures = "0.3"
serde = { version = "1", features = ["derive"] }
serde_json = "1"
csv = "1"
crossbeam = "0.8"
reqwest = { version = "0.12", default-features = false, features = ["rustls-tls", "socks"] }
