[package]
name = "nixly_launcher"
version = "0.1.0"
edition = "2021"
publish = false

[dependencies]
calloop = "0.13"
calloop-wayland-source = "0.3"
env_logger = "0.11"
fontdue = "0.9"
glow = "0.14"
image = { version = "0.25", default-features = false, features = ["png", "jpeg"] }
khronos-egl = { version = "6", features = ["dynamic"] }
libc = "0.2"
log = "0.4"
notify = "6"
nucleo = "0.5"
resvg = "0.45"
serde = { version = "1", features = ["derive"] }
serde_json = "1"
smithay-client-toolkit = "0.19"
walkdir = "2"
wayland-client = { version = "0.31", features = ["system"] }
wayland-egl = "0.32"
wayland-sys = { version = "0.31", features = ["client", "egl", "dlopen"] }
