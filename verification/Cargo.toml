[package]
name = "dictate"
version = "0.1.0"
edition = "2021"
publish = false

[dependencies]
anyhow = "1"
calloop = "0.13"
calloop-wayland-source = "0.3"
cosmic-text = "0.14"
cpal = "0.15"
evdev = { version = "0.12", features = ["tokio"] }
futures = "0.3"
hound = "3.5"
ksni = "0.3"
serde = { version = "1", features = ["derive"] }
serde_json = "1"
smithay-client-toolkit = { version = "0.19", default-features = false, features = ["calloop"] }
tokio = { version = "1", features = ["full"] }
tracing = "0.1"
wayland-client = "0.31"
webrtc-vad = "0.4"
wl-clipboard-rs = "0.9"
wrtype = "*"
