[package]
name = "qarrot_optimizer"
version = "0.1.0"
edition = "2021"
publish = false

[dependencies]
anyhow = "1"
clap = { version = "4", features = ["derive"] }
env_logger = "0.11"
flate2 = "1"
fs2 = "0.4"
log = "0.4"
memmap2 = "0.9"
rand = { version = "0.8", features = ["small_rng"] }
regex = "1"
tempfile = "3"
