[package]
name = "acme-native"
version = "0.1.0"
edition = "2021"
publish = false

[dependencies]
unicode-segmentation = "1"
slotmap = "1"
arboard = { version = "3", default-features = false }
taffy = "0.7"
cosmic-text = "0.12"
winit = "0.30"
wgpu = "24"
pollster = "0.4"
bytemuck = { version = "1", features = ["derive"] }
accesskit = "0.17"
thiserror = "2"
tracing = "0.1"
