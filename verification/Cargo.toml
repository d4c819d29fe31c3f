[package]
name = "lolite"
version = "0.1.0"
edition = "2021"
publish = false

[dependencies]
anyhow = "=1.0.104"
ipc-channel = "=0.23.0"
serde = { version = "1", features = ["derive"] }
winit = "=0.30.13"
