[package]
name = "transit_monitor"
version = "0.1.0"
edition = "2021"
publish = false

[dependencies]
chrono = { version = "=0.4.45", features = ["serde"] }
clap = { version = "*", features = ["derive"] }
html-escape = "=0.2.15"
log = "*"
reqwest = { version = "*", default-features = false, features = ["blocking"] }
scraper = "=0.27.0"
serde = { version = "*", features = ["derive"] }
serde_json = "*"
simple_logger = "*"
