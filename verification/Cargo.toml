[package]
name = "bizarro"
version = "0.1.0"
edition = "2021"
publish = false

[dependencies]
rand = "*"
serde = "*"
serde_derive = "*"
toml = "*"
log = "*"
fern = "*"
chrono = "*"
