[package]
name = "mikrotik-rs"
version = "0.1.0"
edition = "2021"
publish = false

[dependencies]
getrandom = "0.2"
thiserror = "1"
tokio = { version = "1", default-features = false, features = ["net", "io-util", "sync", "rt", "macros"] }
