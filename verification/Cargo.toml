[package]
name = "engine"
version = "0.1.0"
edition = "2021"
publish = false

[dependencies]
image = { version = "0.25", default-features = false, features = ["png"] }
num-complex = "0.4"
rand = "0.9"
rustfft = "6"
