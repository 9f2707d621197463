[package]
name = "depsaw"
version = "0.1.0"
edition = "2021"
publish = false

[dependencies]
anyhow = "*"
clap = { version = "*", features = ["derive"] }
csv = "*"
log = "*"
rkyv = "*"
serde = { version = "*", features = ["derive"] }
serde_json = "*"
serde_yaml = "*"
tracing = "*"
tracing-subscriber = { version = "*", features = ["env-filter"] }
