[package]
name = "aurora_screenshots"
version = "0.1.0"
edition = "2021"
publish = false

[dependencies]
base64 = "0.22"
image = { version = "0.25", default-features = false, features = ["png", "jpeg"] }
serde = { version = "1", features = ["derive"] }
thiserror = "2"
rusqlite = { version = "0.32", features = ["bundled"] }
x11rb = { version = "0.13", features = ["randr"] }
tokio = { version = "1", features = ["process", "time", "rt-multi-thread", "sync", "macros", "fs"] }
rayon = "1"
