[package]
name = "journal_watcher"
version = "0.1.0"
edition = "2021"
publish = false

[dependencies]
regex = "1"
chrono = "0.4"
sled = "0.34"
serde = { version = "1", features = ["derive"] }
serde_json = "1"
serde_yaml = "*"
nickel = "*"
argparse = "*"
dirs = "*"
