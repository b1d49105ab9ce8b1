[package]
name = "wfc"
version = "0.1.0"
edition = "2021"
publish = false

[dependencies]
rand = "0.8"
image = { version = "0.24", default-features = false, features = ["png", "jpeg"] }
rustler = "0.29"
serde = { version = "1", features = ["derive"] }
serde_derive = "1"
serde_json = "1"
