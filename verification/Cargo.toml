[package]
name = "execution_bridge"
version = "0.1.0"
edition = "2021"
publish = false

[dependencies]
env_logger = "=0.11.11"
ethereum-types = "=0.16.0"
failure = "=0.1.8"
futures = "=0.3.34"
log = "=0.4.34"
ring = "=0.17.14"
serde = { version = "=1.0.229", features = ["derive"] }
serde_derive = "=1.0.229"
slog = "=2.8.2"
structopt = "=0.3.26"
tokio = { version = "=1.54.1", features = ["full"] }
