[package]
name = "qualetize_gui"
version = "0.1.0"
edition = "2021"
publish = false

[dependencies]
miniz_oxide = "*"
png = "*"
serde = { version = "1", features = ["derive"] }
serde_json = "1"
