[package]
name = "atlier"
version = "0.1.0"
edition = "2021"
publish = false

[dependencies]
base64 = "0.13"
serde = { version = "1", features = ["derive"] }
specs = "0.17"
