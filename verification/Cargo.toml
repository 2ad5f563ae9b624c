[package]
name = "openhoshimi"
version = "0.1.0"
edition = "2021"
publish = false

[dependencies]
jpeg-decoder = { version = "=0.3.2", features = ["platform_independent"] }
png = "=0.17.16"
serde = { version = "=1.0.229", features = ["derive"] }
thiserror = "=1.0.69"
toml = "=0.8.23"
rustfft = "=6.4.1"
eframe = { version = "=0.31.1", default-features = false, features = ["default_fonts", "glow", "x11"] }
egui_extras = { version = "=0.31.1", default-features = false }
rfd = { version = "=0.15.4", default-features = false, features = ["xdg-portal", "async-std"] }
