[package]
name = "simulife"
version = "0.1.0"
edition = "2021"
publish = false

[dependencies]
anyhow = "1"
bytemuck = { version = "1", features = ["derive"] }
clap = { version = "4", features = ["derive"] }
egui = { version = "0.32", default-features = false, features = ["default_fonts"] }
egui-wgpu = { version = "0.32", default-features = false }
egui-winit = { version = "0.32", default-features = false }
glam = "0.30"
pollster = "0.4"
quinn = { version = "0.11", default-features = false, features = ["runtime-tokio", "rustls-ring"] }
rand = "0.8"
rand_chacha = { version = "0.3", features = ["serde1"] }
rcgen = "0.13"
rmp-serde = "1"
rustls = { version = "0.23", default-features = false, features = ["ring", "std"] }
serde = { version = "1", features = ["derive"] }
tokio = { version = "1", features = ["full"] }
toml = "0.8"
tracing = "0.1"
tracing-chrome = "0.7"
tracing-subscriber = { version = "0.3", features = ["env-filter"] }
wgpu = { version = "25", default-features = false, features = ["wgsl"] }
winit = { version = "0.30", default-features = false, features = ["x11", "rwh_06"] }
zstd = { version = "0.13", features = ["zstdmt"] }
