[package]
name = "simba"
version = "0.1.0"
edition = "2021"
publish = false

[dependencies]
serde_json = "*"
prost = "*"
tokio = { version = "*", features = ["rt", "time"] }
