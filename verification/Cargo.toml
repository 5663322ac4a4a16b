[package]
name = "nested_mazes"
version = "0.1.0"
edition = "2021"
publish = false

[dependencies]
rand = "0.8"
image = { version = "0.24", default-features = false, features = ["png"] }
serde_json = "1"
chrono = "0.4"
