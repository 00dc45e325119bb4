[package]
name = "tile_pyramid"
version = "0.1.0"
edition = "2021"
publish = false

[dependencies]
image = { version = "*", default-features = false, features = ["png", "jpeg"] }
reqwest = { version = "*", default-features = false, features = ["rustls-tls", "blocking"] }
tokio = { version = "*", features = ["rt-multi-thread", "time"] }
parking_lot = "*"
anyhow = "*"
