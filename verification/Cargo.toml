[package]
name = "ecs_benchmarking"
version = "0.1.0"
edition = "2021"
publish = false

[dependencies]
freecs = { version = "=5.1.0", features = ["dynamic"] }
sky_ecs = "=0.3.0"
bevy_ecs = "=0.20.1"
bevy_tasks = "=0.20.1"
cgmath = "=0.18.0"
serde = { version = "=1.0.229", features = ["derive"] }
serde_json = "=1.0.154"
