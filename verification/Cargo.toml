[package]
name = "envgg"
version = "0.1.0"
edition = "2021"
publish = false

[dependencies]
keyring-core = "*"
anyhow = "*"
clap = { version = "*", features = ["derive"] }
tokio = { version = "*", features = ["rt-multi-thread", "macros"] }
futures = "*"
dbus-secret-service-keyring-store = "*"
