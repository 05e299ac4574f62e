[package]
name = "pathtracer"
version = "0.1.0"
edition = "2021"
publish = false

[dependencies]
bytemuck = "1"
bytemuck_derive = "1"
env_logger = { version = "0.10", default-features = false }
fastrand = "2"
log = "0.4"
nalgebra = "0.32"
raw-window-handle = "0.5"
rayon = "1"
smol = "2"
wgpu = "0.16"
winit = { version = "0.28", default-features = false, features = ["x11"] }

[dev-dependencies]
float-ord = "0.3"
