[package]
name = "litep2p"
version = "0.1.0"
edition = "2021"
publish = false

[dependencies]
tokio = { version = "1", features = ["sync", "time", "rt", "rt-multi-thread", "macros"] }
futures = "0.3"
multiaddr = "0.18"
