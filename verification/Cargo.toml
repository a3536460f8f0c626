[package]
name = "mpicd"
version = "0.1.0"
edition = "2021"
publish = false

[dependencies]
clap = { version = "=4.5.61", features = ["derive"] }
env_logger = "=0.11.11"
log = "=0.4.34"
rmp-serde = "=1.3.1"
serde = { version = "=1.0.229", features = ["derive"] }
serde_yaml = "=0.9.34"
