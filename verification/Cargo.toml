[package]
name = "rssrs"
version = "0.1.0"
edition = "2021"
publish = false

[dependencies]
chrono = "0.4"
futures = "0.3"
html2md = "0.2"
regex = "1"
reqwest = "0.11"
rss = "2"
rusqlite = "*"
serde = { version = "1", features = ["derive"] }
termion = "1.5"
tokio = { version = "1", features = ["rt-multi-thread"] }
toml = "*"
tui = { version = "0.19", default-features = false, features = ["termion"] }
webbrowser = "*"
