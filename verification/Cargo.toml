[package]
name = "treewm"
version = "0.1.0"
edition = "2021"
publish = false

[dependencies]
smithay = { version = "*", default-features = false, features = ["backend_winit", "desktop", "renderer_gl", "wayland_frontend"] }
serde = { version = "1", features = ["derive"] }
serde_json = "1"
toml = "*"
dirs = "*"
anyhow = "1"
tokio = { version = "1", features = ["rt-multi-thread", "sync", "net", "io-util", "macros"] }
tracing = "0.1"
tracing-subscriber = { version = "0.3", features = ["env-filter"] }
