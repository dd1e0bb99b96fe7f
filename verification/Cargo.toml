[package]
name = "html2json"
version = "0.1.0"
edition = "2021"
publish = false

[dependencies]
anyhow = "*"
clap = { version = "*", features = ["derive"] }
ego-tree = "*"
regex = "*"
reqwest = { version = "*", default-features = false }
scraper = "*"
serde_json = "*"
similar = "*"
url = "*"
