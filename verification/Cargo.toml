[package]
name = "yggdrasil_keygen"
version = "0.1.0"
edition = "2021"
publish = false

[dependencies]
yggdrasil-keys = "*"
rand = "0.8"
serde = { version = "1", features = ["derive"] }
serde_json = "1"
serde_yaml = "0.9"
tokio = { version = "1", features = ["rt-multi-thread", "macros", "sync"] }
clap = { version = "4", features = ["derive"] }
directories = "*"
fd-lock = "*"
anyhow = "1"
