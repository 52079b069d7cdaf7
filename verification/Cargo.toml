[package]
name = "rinex_cli"
version = "0.1.0"
edition = "2021"
publish = false

[dependencies]
hifitime = "=4.3.1"
rinex = { version = "=0.23.0", features = ["obs", "nav"] }
gnss-rtk = { version = "=0.8.0", features = ["serde"] }
gnss-rs = "=2.7.0"
anise = { version = "*", default-features = false }
clap = "=4.6.7"
log = "*"
env_logger = "*"
walkdir = "*"
serde_json = "*"
