[package]
name = "port-authority"
version = "0.1.0"
edition = "2021"
publish = false

[dependencies]
time = { version = "0.3", features = ["formatting", "parsing", "serde", "macros"] }
uuid = { version = "1", features = ["v4", "serde"] }
serde = { version = "1", features = ["derive"] }
serde_json = "1"
toml = "*"
clap = { version = "4", features = ["derive"] }
socket2 = "*"
tempfile = "3"
chrono = { version = "0.4", features = ["unstable-locales"] }
sys-locale = "*"
comfy-table = "*"
listeners = "*"
