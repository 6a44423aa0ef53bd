[package]
name = "groupald"
version = "0.1.0"
edition = "2021"
publish = false

[dependencies]
ldap3 = { version = "*", default-features = false }
serde = { version = "*", features = ["derive"] }
serde_json = "*"
chrono = "*"
tokio = { version = "*", features = ["fs", "io-util", "rt", "macros"] }
reqwest = { version = "*", default-features = false }
