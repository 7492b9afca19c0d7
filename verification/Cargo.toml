[package]
name = "names_etl"
version = "0.1.0"
edition = "2021"
publish = false

[dependencies]
csv = "1"
reqwest = { version = "*", default-features = false, features = ["blocking", "rustls-tls"] }
rusqlite = { version = "*", features = ["bundled"] }
