[package]
name = "ttyman"
version = "0.2.1"
edition = "2021"
publish = false

[dependencies]
anyhow = "=1.0.104"
clap = { version = "=4.6.7", features = ["derive"] }
clap_complete = "=4.6.11"
crossterm = "=0.29.0"
nix = { version = "=0.31.3", features = ["fs", "process", "signal", "term", "user", "ioctl"] }
serde = { version = "=1.0.229", features = ["derive"] }
serde_json = "=1.0.154"
thiserror = "=2.0.21"
tokio = { version = "=1.54.1", features = ["full"] }
toml = "=1.1.8"
vt100 = "=0.16.2"
