[package]
name = "tabsbot"
version = "0.1.0"
edition = "2021"
publish = false

[dependencies]
anyhow = "=1.0.104"
clap = { version = "=4.6.7", features = ["derive"] }
matrix-sdk = { version = "=0.7.1", default-features = false, features = ["native-tls"] }
rpassword = "=7.5.4"
ruma-events = "=0.27.11"
serde = { version = "=1.0.229", features = ["derive"] }
tokio = { version = "=1.54.1", features = ["macros", "rt", "sync", "time"] }
