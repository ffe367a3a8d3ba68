[package]
name = "xdns"
version = "0.1.0"
edition = "2021"
publish = false

[dependencies]
lru = { version = "=0.7.8", default-features = false }
chrono = "0.4"
serde = { version = "1", features = ["derive"] }
serde_json = "1"
tokio = { version = "1", features = ["full"] }
clap = "3"
anyhow = "1"
async-trait = "0.1"
actix-web = "4"
reqwest = { version = "0.11", features = ["json"] }
