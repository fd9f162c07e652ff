[package]
name = "sdf_terrain"
version = "0.1.0"
edition = "2021"
publish = false

[dependencies]
seahash = "=4.1.0"
nohash-hasher = "=0.2.0"
glam = "=0.24.2"
noise = { version = "=0.8.2", default-features = false }
wgpu = "=0.15.1"
sdl2 = { version = "=0.36.0", features = ["raw-window-handle"] }
pollster = "=0.3.0"
env_logger = "=0.10.2"
tobj = "=3.2.5"
