[package]
name = "fastwebsockets"
version = "0.1.0"
edition = "2021"
publish = false

[dependencies]
simdutf8 = "*"
tokio = { version = "*", features = ["io-util"] }
