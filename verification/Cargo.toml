[package]
name = "octo"
version = "0.1.0"
edition = "2021"
publish = false

[dependencies]
hex = "0.4"
hmac = "0.12"
sha2 = "0.10"
serde = { version = "1", features = ["derive"] }
thiserror = "1"
reqwest = { version = "0.12", default-features = false, features = ["json"] }

[dev-dependencies]
stellar-base = "0.7"
