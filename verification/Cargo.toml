[package]
name = "skills_sync"
version = "0.1.0"
edition = "2021"
publish = false

[dependencies]
anyhow = "1"
clap = { version = "4", features = ["derive"] }
colored = "2"
directories = "5"
futures = "0.3"
indicatif = "0.17"
serde = { version = "1", features = ["derive"] }
tempfile = "3"
tokio = { version = "1", features = ["macros", "rt-multi-thread", "fs", "process", "sync"] }
toml = "0.8"
keyring = { version = "3", features = ["linux-native"] }
