[package]
name = "rotation_viewer"
version = "0.1.0"
edition = "2021"
publish = false

[dependencies]
image = { version = "=0.25.10", default-features = false, features = ["png", "jpeg"] }
winit = { version = "=0.30.13", default-features = false, features = ["x11", "rwh_06"] }
minifb = { version = "=0.28.0", default-features = false, features = ["x11"] }
rumqttc = { version = "=0.24.0", default-features = false }
fontdue = "=0.9.5"
rayon = "=1.11.0"
serde = { version = "1", features = ["derive"] }
serde_json = "1"
serialport = { version = "=4.7.3", default-features = false }
core-graphics = "=0.24.0"
