[package]
name = "rumour"
version = "0.1.0"
edition = "2021"
publish = false

[dependencies]
rand = "0.8"
bincode = "0.9"
serde = "1"
serde_derive = "1"
clap = "2"
futures = "0.1"
tokio-core = "0.1"
tokio-timer = "0.1"
error-chain = { version = "0.12", default-features = false }
