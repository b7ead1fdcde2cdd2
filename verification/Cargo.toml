[package]
name = "batch_mail"
version = "0.1.0"
edition = "2021"
publish = false

[dependencies]
lettre = { version = "0.11", default-features = false, features = ["builder", "smtp-transport"] }
dirs = "6"

[dev-dependencies]
serde_json = "1"
