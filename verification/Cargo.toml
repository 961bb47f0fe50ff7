[package]
name = "gamestore"
version = "0.1.0"
edition = "2021"
publish = false

[dependencies]
serde = { version = "1", features = ["derive"] }
serde_json = "1"
percent-encoding = "2"
toml = "*"
directories = "*"
keyring = "*"
ureq = "*"
thiserror = "*"
clap = { version = "4", features = ["derive"] }
tracing = "*"
tracing-subscriber = { version = "*", features = ["env-filter"] }

[dev-dependencies]
tempfile = "*"
