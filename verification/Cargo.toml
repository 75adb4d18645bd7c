[package]
name = "rigra"
version = "0.1.0"
edition = "2021"
publish = false

[dependencies]
regex = "*"
owo-colors = "*"
serde = { version = "*", features = ["derive"] }
serde_json = { version = "*", features = ["preserve_order"] }
serde_yaml = "*"
toml = "*"
clap = { version = "*", features = ["derive"] }
pathdiff = "*"
