[package]
name = "mjpeg_rs"
version = "0.1.0"
edition = "2021"
publish = false

[dependencies]
image = { version = "*", default-features = false, features = ["jpeg"] }
actix-web = "*"
tokio = { version = "*", features = ["sync", "rt", "time", "macros"] }
log = "*"
env_logger = "*"
structopt = "*"
