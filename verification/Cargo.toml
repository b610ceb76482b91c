[package]
name = "gtfs_heatmap_lib"
version = "0.1.0"
edition = "2021"
publish = false

[dependencies]
image = { version = "=0.25.10", default-features = false, features = ["png", "webp"] }
time = "=0.3.55"
gtfs-structures = { version = "=0.52.0", default-features = false }
serde = { version = "=1.0.229", features = ["derive"] }
serde_json = "=1.0.154"
thiserror = "=2.0.21"
rocket = "=0.5.2"
