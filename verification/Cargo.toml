[package]
name = "align"
version = "0.1.0"
edition = "2021"
publish = false

[dependencies]
fancy-regex = "*"
regress = "*"
unicode-width = "*"
serde = { version = "1", features = ["derive"] }
toml = "*"
directories = "*"
