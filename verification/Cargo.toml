[package]
name = "object_storage"
version = "0.1.0"
edition = "2021"
publish = false

[dependencies]
sha2 = "=0.11.0"
hex = "=0.4.3"
jsonwebtoken = { version = "=11.1.0", default-features = false, features = ["rust_crypto"] }
uuid = { version = "=1.27.0", features = ["v4"] }
chrono = "=0.4.45"
