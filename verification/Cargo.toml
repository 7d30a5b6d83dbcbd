[package]
name = "spatial_audio"
version = "0.1.0"
edition = "2021"
publish = false

[dependencies]
bevy = { version = "=0.9.1", default-features = false }
bevy_kira_audio = { version = "=0.13.0" }
uuid = { version = "1", features = ["v4"] }
