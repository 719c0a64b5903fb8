[package]
name = "sitemap_crawler"
version = "0.1.0"
edition = "2021"
publish = false

[dependencies]
scraper = "*"
serde_json = "1"
sha1 = "0.10"
serde = { version = "1", features = ["derive"] }
reqwest = "0.11"
tokio = { version = "1", features = ["full"] }
anyhow = "1"
async-trait = "0.1"
chrono = "0.4"
diesel = { version = "1.4", features = ["sqlite", "r2d2", "chrono"] }
dotenv = "0.15"
env_logger = "*"
futures = "0.3"
log = "0.4"
