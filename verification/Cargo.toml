[package]
name = "shortpath"
version = "0.1.0"
edition = "2021"
publish = false

[dependencies]
indexmap = { version = "2", features = ["serde"] }
dirs = "5"
directories = "5"
walkdir = "2"
toml = "0.8"
serde = { version = "1", features = ["derive"] }
clap = { version = "4", features = ["derive"] }
env_logger = "0.10"
log = "0.4"
bimap = "0.6"
