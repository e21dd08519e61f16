[package]
name = "umbra"
version = "0.1.0"
edition = "2021"
publish = false

[dependencies]
anyhow = "1"
bytemuck = { version = "1", features = ["derive"] }
image = { version = "0.25", default-features = false }
pollster = "0.4"
thiserror = "2"
wgpu = "*"
winit = "0.30"
