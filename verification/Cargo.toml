[package]
name = "langs_in_rust"
version = "0.1.0"
edition = "2021"
publish = false

[dependencies]
chrono = { version = "0.4", features = ["serde"] }
serde = { version = "1", features = ["derive"] }
serde_json = "1"
ureq = { version = "3", features = ["json", "platform-verifier"] }
dotenvy = "0.15"
clap = { version = "4", features = ["derive"] }
toml = "0.8"
