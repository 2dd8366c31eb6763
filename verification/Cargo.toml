[package]
name = "torrent-search"
version = "0.1.0"
edition = "2021"
publish = false

[dependencies]
urlencoding = "2"
scraper = "*"
anyhow = "1"
async-trait = "0.1"
clap = { version = "4", features = ["derive"] }
futures = "0.3"
reqwest = { version = "0.12", default-features = false, features = ["json", "rustls-tls"] }
serde = { version = "1", features = ["derive"] }
serde_json = "1"
terminal_size = "*"
tokio = { version = "1", features = ["macros", "rt-multi-thread"] }
