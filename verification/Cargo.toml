[package]
name = "mime_version"
version = "0.1.0"
edition = "2021"
publish = false

[dependencies]
hyperx = { version = "=1.4.0", features = ["headers"] }
