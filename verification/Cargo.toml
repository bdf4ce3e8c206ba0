[package]
name = "srp"
version = "0.1.0"
edition = "2021"
publish = false

[dependencies]
anyhow = "=1.0.104"
async-trait = "=0.1.92"
base64 = "=0.22.1"
bytes = "=1.12.1"
clap = { version = "=4.6.7", features = ["derive", "env"] }
humantime-serde = "=1.1.1"
rand = "=0.9.5"
russh = { version = "=0.65.0", default-features = false, features = ["ring"] }
serde = { version = "=1.0.229", features = ["derive"] }
socket2 = "=0.6.5"
thiserror = "=2.0.21"
tokio = { version = "=1.54.1", features = ["full"] }
toml = "=0.8.23"
tracing = "=0.1.44"
tracing-subscriber = { version = "=0.3.23", features = ["env-filter"] }
