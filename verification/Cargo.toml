[package]
name = "libhf"
version = "0.1.0"
edition = "2021"
publish = false

[dependencies]
sha2 = "*"
actix = "*"
actix-rt = "*"
clap = { version = "*", features = ["derive"] }
env_logger = "*"
log = "*"
num_cpus = "*"
