[package]
name = "drft"
version = "0.1.0"
edition = "2021"
publish = false

[dependencies]
anyhow = "1"
blake3 = "1"
clap = { version = "4", features = ["derive"] }
globset = "0.4"
ignore = "0.4"
pulldown-cmark = "*"
saphyr = "*"
serde = { version = "1", features = ["derive"] }
serde_json = "1"
thiserror = "*"
toml = "*"
url = "2"

[dev-dependencies]
