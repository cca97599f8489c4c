[package]
name = "nirisaver"
version = "0.1.0"
edition = "2021"
publish = false

[dependencies]
anyhow = "1"
clap = { version = "4", features = ["derive"] }
fontdue = "*"
rustix = { version = "1", features = ["event", "fs", "pipe", "std"] }
serde = { version = "1", features = ["derive"] }
signal-hook = "*"
smithay-client-toolkit = { version = "*", default-features = false }
toml = "*"
wayland-client = "*"
