[package]
name = "assetpacker"
version = "0.1.0"
edition = "2021"
publish = false

[dependencies]
guillotiere = "*"
heck = "*"
image = { version = "*", default-features = false, features = ["png"] }
fontdue = "*"
sdfer = "*"
glam = { version = "*", features = ["serde"] }
serde = { version = "1", features = ["derive"] }
serde_json = "1"
