[package]
name = "murl"
version = "0.1.0"
edition = "2021"
publish = false

[dependencies]
camino = "1"
percent-encoding = "2"
strum = { version = "0.26", features = ["derive"] }
thiserror = "1"
