[package]
name = "morg"
version = "0.1.0"
edition = "2021"
publish = false

[dependencies]
chrono = "*"
serde_yaml = "*"
dirs = "*"
serde = { version = "*", features = ["derive"] }
serde_json = "*"
toml = "*"
icalendar = "*"
