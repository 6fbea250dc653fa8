[package]
name = "i18n_error"
version = "0.1.0"
edition = "2021"
publish = false

[dependencies]
actix-web = { version = "4", default-features = false }
serde = { version = "1", features = ["derive"] }
serde_json = "1"
