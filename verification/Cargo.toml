[package]
name = "sway"
version = "0.1.0"
edition = "2021"
publish = false

[dependencies]
bevy_reflect = "*"
ron = "*"
serde = { version = "1", features = ["derive"] }
crossbeam-channel = "*"
