[package]
name = "hn2"
version = "0.1.0"
edition = "2021"
publish = false

[dependencies]
quick-xml = "0.37"
reqwest = { version = "0.12", default-features = false, features = ["blocking", "rustls-tls"] }
