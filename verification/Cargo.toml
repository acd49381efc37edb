[package]
name = "wiki_rag"
version = "0.1.0"
edition = "2021"
publish = false

[dependencies]
sled = "*"
scraper = "*"
serde = { version = "*", features = ["derive"] }
serde_json = "*"
reqwest = { version = "*", default-features = false, features = ["json"] }
tokio = { version = "*", features = ["rt-multi-thread", "macros", "time"] }
chrono = "*"
uuid = { version = "*", features = ["v4"] }
dirs = "*"
