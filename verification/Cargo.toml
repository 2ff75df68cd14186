[package]
name = "vdmtool"
version = "0.1.0"
edition = "2021"
publish = false

[dependencies]
clap = { version = "4", features = ["cargo"] }
env_logger = "0.11"
i2cdev = "0.6"
log = "0.4"
