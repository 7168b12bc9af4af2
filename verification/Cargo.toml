[package]
name = "mado"
version = "0.3.2"
edition = "2021"
publish = false

[dependencies]
comrak = { version = "*", default-features = false }
linkify = "*"
rustc-hash = "*"
serde = { version = "1", features = ["derive"] }
