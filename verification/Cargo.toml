[package]
name = "atomr_view"
version = "0.1.0"
edition = "2021"
publish = false

[dependencies]
uuid = { version = "=1.29.0", features = ["v4"] }
anyhow = "=1.0.104"
tokio = { version = "=1.54.1", features = ["sync", "rt", "rt-multi-thread", "macros", "time"] }
serde = { version = "=1.0.229", features = ["derive"] }
atomr-core = "=0.10.1"
egui = "=0.37.0"
winit = "0.29"
