[package]
name = "knoflik_sdr"
version = "0.1.0"
edition = "2021"
publish = false

[dependencies]
anyhow = "1"
chrono = "0.4"
eframe = { version = "0.34", default-features = false, features = ["default_fonts", "glow", "x11", "wayland"] }
num-complex = "0.4"
rtrb = "0.3"
rusb = { version = "0.9", features = ["vendored"] }
rustfft = "6"
serde = { version = "1", features = ["derive"] }
toml = "0.9"
ureq = "3"
