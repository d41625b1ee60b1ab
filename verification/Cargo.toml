[package]
name = "rss_rs"
version = "0.1.0"
edition = "2021"
publish = false

[dependencies]
chrono = "*"
feed-rs = "*"
reqwest = { version = "*", default-features = false, features = ["blocking"] }
rusqlite = { version = "*", features = ["bundled"] }
scraper = "*"
sha2 = "*"
url = "*"
