[package]
name = "hw_regmap"
version = "0.1.0"
edition = "2021"
publish = false

[dependencies]
serde = { version = "1", features = ["derive"] }
serde_json = "1"
toml = "*"
indexmap = { version = "*", features = ["serde"] }
clap = { version = "4", features = ["derive"] }
regex = "1"
tera = "1"
