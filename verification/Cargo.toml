[package]
name = "maschine-mk3"
version = "0.1.0"
edition = "2021"
publish = false

[dependencies]
alsa = "0.9"
anyhow = "1"
egui = { version = "0.27", default-features = false, features = ["default_fonts"] }
futures-lite = "2"
libc = "0.2"
notify = "6"
nusb = "0.1"
serde = { version = "1", features = ["derive"] }
serde_json = "1"
tiny_http = "0.12"
toml = "0.8"
toml_edit = { version = "0.22", features = ["serde"] }
