[package]
name = "clipvault"
version = "0.1.0"
edition = "2021"
publish = false

[dependencies]
anyhow = "=1.0.104"
chrono = "=0.4.45"
clap = { version = "=4.6.7", features = ["derive"] }
directories = "=6.0.0"
egui = "0.32"
fuzzy-matcher = "=0.3.7"
hex = "=0.4.3"
image = { version = "=0.25.10", default-features = false, features = ["png", "jpeg"] }
interprocess = "=2.4.7"
libc = "=0.2.191"
rusqlite = { version = "=0.41.1", features = ["bundled"] }
serde = { version = "=1.0.229", features = ["derive"] }
serde_json = "=1.0.154"
sha2 = "=0.10.9"
tokio = { version = "=1.54.1", features = ["rt", "time", "process"] }
toml = "=1.1.8"
tracing = "=0.1.44"
tracing-subscriber = { version = "=0.3.23", features = ["env-filter"] }
