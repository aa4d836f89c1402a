[package]
name = "spiderman"
version = "0.1.0"
edition = "2021"
publish = false

[dependencies]
anyhow = "*"
clap = { version = "*", features = ["derive"] }
fs_extra = "*"
serde = { version = "*", features = ["derive"] }
shellexpand = "*"
toml = "*"
uuid = { version = "*", features = ["v4"] }
