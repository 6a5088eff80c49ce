[package]
name = "vge_studio"
version = "0.1.0"
edition = "2021"
publish = false

[dependencies]
bevy_ecs = "=0.19.1"
egui = "=0.36.2"
egui-wgpu = "=0.36.2"
egui-winit = { version = "=0.36.2", default-features = false, features = ["x11"] }
egui_dock = { version = "=0.21.1", features = ["serde"] }
glam = "=0.34.2"
rfd = "=0.17.2"
ron = "=0.12.3"
serde = { version = "=1.0.229", features = ["derive"] }
thiserror = "=2.0.21"
tracing = "=0.1.44"
tracing-subscriber = "=0.3.23"
uuid = "=1.29.0"
