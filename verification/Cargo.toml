[package]
name = "planetgen"
version = "0.1.0"
edition = "2021"
publish = false

[dependencies]
rand = "0.9"
noise = "0.9"
glam = "0.29"
serde = { version = "1", features = ["derive"] }
toml = "0.8"
