[package]
name = "storystats"
version = "0.1.0"
edition = "2021"
publish = false

[dependencies]
unidecode = "*"
serde = { version = "1", features = ["derive"] }
serde_json = "1"
ron = "*"
chrono = "0.4"
log = "0.4"
simplelog = "*"
uuid = { version = "1", features = ["v4"] }
