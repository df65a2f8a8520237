[package]
name = "flameview"
version = "0.1.0"
edition = "2021"
publish = false

[dependencies]
rouille = "*"
mime_guess = "*"
serde = { version = "*", features = ["derive"] }
serde_json = "*"
