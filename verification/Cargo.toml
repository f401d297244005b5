[package]
name = "yokai"
version = "0.1.0"
edition = "2021"
publish = false

[dependencies]
yaxi = { version = "=0.1.57", features = ["ewmh", "xinerama"] }
bincode = "=1.3.3"
serde = { version = "=1.0.229", features = ["derive"] }
clap = { version = "=4.6.7", features = ["derive"] }
