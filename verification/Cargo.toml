[package]
name = "latency_tool"
version = "0.1.0"
edition = "2021"
publish = false

[dependencies]
biquad = "=0.4.2"
eframe = { version = "0.29", default-features = false, features = ["glow"] }
env_logger = { version = "=0.11.11", default-features = false, features = ["humantime"] }
hound = "=3.5.1"
log = "=0.4.35"
rubato = "=0.15.0"
rustfft = "=6.4.1"
