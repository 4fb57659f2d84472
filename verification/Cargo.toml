[package]
name = "logium_core"
version = "0.1.0"
edition = "2021"
publish = false

[dependencies]
chrono = "*"
regex = "*"
serde_json = "*"
serde = { version = "*", features = ["derive"] }
rayon = "*"
csv = "*"

[dev-dependencies]
