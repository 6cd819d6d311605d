[package]
name = "mystery_novel_agent"
version = "0.1.0"
edition = "2021"
publish = false

[dependencies]
anyhow = "1"
character_converter = "*"
clap = { version = "4", features = ["derive"] }
comfy-table = "7"
dialoguer = "*"
dirs = "*"
dunce = "1"
flate2 = "1"
percent-encoding = "2"
pinyin = "*"
rbook = "*"
regex = "1"
reqwest = { version = "0.12", default-features = false, features = ["json", "rustls-tls"] }
rusqlite = { version = "*", features = ["bundled"] }
scraper = "*"
serde = { version = "1", features = ["derive"] }
serde_json = "1"
sysinfo = "*"
thiserror = "*"
tokio = { version = "1", features = ["full"] }
toml = "*"
tracing = "0.1"
tracing-subscriber = { version = "0.3", features = ["env-filter"] }
zip = { version = "*", default-features = false, features = ["deflate"] }
