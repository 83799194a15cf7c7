[package]
name = "apttools"
version = "0.1.0"
edition = "2021"
publish = false

[dependencies]
anyhow = "1"
clap = { version = "4", features = ["derive"] }
env_logger = "*"
flate2 = "1"
image = { version = "0.25", default-features = false, features = ["png", "jpeg", "tga", "dds"] }
log = "0.4"
rectutils = "*"
spade = "2"
swf = "*"
thiserror = "2"
