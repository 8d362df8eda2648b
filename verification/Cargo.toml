[package]
name = "asphalt"
version = "0.1.0"
edition = "2021"
publish = false

[dependencies]
image = "*"
regex = "*"
oxipng = "*"
serde = { version = "*", features = ["derive"] }
serde_json = "*"
toml = "*"
json5 = "*"
fjson = "*"
