[package]
name = "vex"
version = "0.1.0"
edition = "2021"
publish = false

[dependencies]
base64 = "0.22"
anyhow = "1"
glam = "*"
gltf = { version = "1", default-features = false, features = ["utils", "names", "KHR_materials_emissive_strength"] }
ron = "*"
serde = { version = "1", features = ["derive"] }
log = "0.4"
env_logger = "*"
kira = "0.12"
wgpu = "*"
png = "*"
pollster = "*"
bytemuck = { version = "1", features = ["derive"] }
