[package]
name = "qtx_float"
version = "0.1.0"
edition = "2021"
publish = false

[dependencies]
serde = { version = "1", features = ["derive"] }
sqlx = { version = "0.8", default-features = false, features = ["postgres"] }

[dev-dependencies]
serde_json = "1"
