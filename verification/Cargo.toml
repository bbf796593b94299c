[package]
name = "struqture"
version = "1.0.0"
edition = "2021"
publish = false

[dependencies]
qoqo_calculator = "*"
num-complex = "*"
serde = { version = "*", features = ["derive"] }

[dev-dependencies]
serde_json = "*"
bincode = "1"
