[package]
name = "complexity_radar"
version = "0.1.0"
edition = "2021"
publish = false

[dependencies]
itertools = "=0.15.0"
chrono = "=0.4.45"
octocrab = "=0.40.0"
tokio = { version = "=1.54.1", features = ["rt-multi-thread", "macros"] }
clap = { version = "=4.6.7", features = ["derive"] }
env_logger = "=0.11.11"
anyhow = "=1.0.104"
