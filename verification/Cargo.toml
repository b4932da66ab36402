[package]
name = "jbsync"
version = "0.1.0"
edition = "2021"
publish = false

[dependencies]
xmltree = "=0.12.0"
globset = "=0.4.21"
serde = { version = "=1.0.229", features = ["derive"] }
serde_json = "=1.0.154"
toml = "=0.9.8"
clap = { version = "=4.6.7", features = ["derive"] }
clap_complete = "=4.6.11"
anyhow = "=1.0.104"
thiserror = "=2.0.21"
dirs = "=6.0.0"
walkdir = "=2.5.0"
zip = { version = "=8.6.0", default-features = false, features = ["deflate"] }
