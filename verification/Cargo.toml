[package]
name = "deribit"
version = "0.1.0"
edition = "2021"
publish = false

[dependencies]
futures = "*"
log = "*"
serde = { version = "*", features = ["derive"] }
serde_json = "*"
tungstenite = "*"
