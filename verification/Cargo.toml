[package]
name = "dep_resolution"
version = "0.1.0"
edition = "2021"
publish = false

[dependencies]
reqwest = { version = "0.9", default-features = false, features = ["rustls-tls"] }
serde = { version = "1", features = ["derive"] }
