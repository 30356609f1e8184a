[package]
name = "lighthouse"
version = "0.1.0"
edition = "2021"
publish = false

[dependencies]
url = "*"
reqwest = { version = "*", default-features = false, features = ["json"] }
tokio = { version = "*", features = ["rt", "time", "macros"] }
futures = "*"
serde = { version = "*", features = ["derive"] }
serde_json = "*"
ssdp = "*"
clap = "*"
dirs = "*"
dotenv = "*"
palette = "*"
