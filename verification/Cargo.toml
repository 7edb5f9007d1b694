[package]
name = "sinestesia"
version = "0.1.0"
edition = "2021"
publish = false

[dependencies]
anyhow = "1"
dirs = "6"
env_logger = "0.11"
glow = "0.16"
libloading = "0.8"
log = "0.4"
notify = "8"
pipewire = "0.9"
relm4 = { version = "0.10", features = ["libadwaita", "gnome_47"] }
rustfft = "6"
serde = { version = "1", features = ["derive"] }
toml = "0.8"
