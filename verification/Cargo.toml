[package]
name = "opencode-config"
version = "0.1.0"
edition = "2021"
publish = false

[dependencies]
dirs = "5.0"
indexmap = "2"
jsonc-parser = { version = "0.26", features = ["serde"] }
log = "0.4"
once_cell = "1"
serde = "1"
serde_json = "1"
