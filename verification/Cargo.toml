[package]
name = "block_seek"
version = "0.1.0"
edition = "2021"
publish = false

[dependencies]
quick-xml = { version = "0.31", features = ["serialize"] }
serde = "1"
thiserror = "1"
