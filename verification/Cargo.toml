[package]
name = "ristate"
version = "0.1.0"
edition = "2021"
publish = false

[dependencies]
serde = { version = "1", features = ["derive"] }
serde_json = "1"
wayland-client = "0.29"
wayland-commons = "0.29"
