[package]
name = "richclip"
version = "0.1.1"
edition = "2021"
publish = false

[dependencies]
anyhow = "1"
base64 = "0.22"
blake3 = { version = "1", features = ["pure"] }
clap = { version = "4", features = ["derive"] }
directories = "6"
humantime = "2"
image = { version = "0.25", default-features = false, features = ["png", "jpeg", "webp", "bmp"] }
reqwest = { version = "0.12", default-features = false, features = ["blocking"] }
rusqlite = { version = "0.37", features = ["bundled"] }
serde = { version = "1", features = ["derive"] }
serde_json = "1"
thiserror = "2"
time = { version = "0.3", features = ["serde", "formatting", "parsing"] }
tokio = { version = "1", features = ["full"] }
toml = "0.9"
tracing = "0.1"
tracing-subscriber = { version = "0.3", features = ["env-filter"] }
uuid = { version = "1", features = ["v7", "serde"] }
wayland-client = "0.31"
wayland-protocols-wlr = { version = "0.3", features = ["client"] }
