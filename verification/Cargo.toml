[package]
name = "emillaris"
version = "0.1.0"
edition = "2021"
publish = false

[dependencies]
godot = "0.2"
rmp-serde = "1"
serde = { version = "1", features = ["derive"] }
tracing = "0.1"
