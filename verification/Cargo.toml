[package]
name = "vp8_frame_info"
version = "0.1.0"
edition = "2021"
publish = false

[dependencies]
anyhow = "*"
bytes = "*"
rtp = "*"
serde = { version = "*", features = ["derive"] }
serde_json = "*"
webrtc-util = "*"
