[package]
name = "sphere_world"
version = "0.1.0"
edition = "2021"
publish = false

[dependencies]
num = "0.4"
hexasphere = "*"
glam = "*"
itertools = "0.14"
noise = "0.9"
serde = { version = "1", features = ["derive"] }
serde_json = "1"
rand = "*"
