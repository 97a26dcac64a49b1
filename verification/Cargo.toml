[package]
name = "viva_padel"
version = "0.1.0"
edition = "2021"
publish = false

[dependencies]
chrono = "0.4"
validator = "*"
serde = { version = "1", features = ["derive"] }
serde_json = "1"
tokio = { version = "1", features = ["full"] }
axum = "0.8"
reqwest = { version = "0.12", default-features = false, features = ["json", "rustls-tls"] }
jsonwebtoken = "9"
uuid = { version = "1", features = ["v4", "serde"] }

[dev-dependencies]
chrono = "0.4"
