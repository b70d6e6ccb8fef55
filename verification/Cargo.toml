[package]
name = "bnchroma"
version = "0.1.0"
edition = "2021"
publish = false

[dependencies]
anyhow = "1"
clap = { version = "4", features = ["derive"] }
dirs = "6"
image = { version = "0.25", default-features = false, features = ["jpeg", "png", "webp", "gif", "bmp"] }
serde = { version = "1", features = ["derive"] }
shellexpand = "3"
toml = "0.8"
