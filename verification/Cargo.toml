[package]
name = "gemstone"
version = "0.1.0"
edition = "2021"
publish = false

[dependencies]
anyhow = "1"
chrono = "=0.4.45"
cpal = "0.15"
egui = "0.31"
fern = "0.7"
libc = "0.2"
log = "0.4"
midir = "0.10"
rfd = "0.15"
symphonia = { version = "=0.5.5", features = ["mp3", "aac", "isomp4"] }
uuid = { version = "=1.29.0", features = ["v4"] }
vst3 = "=0.3.0"
x11-dl = "2"
