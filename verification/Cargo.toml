[package]
name = "inventory_alerts"
version = "0.1.0"
edition = "2021"
publish = false

[dependencies]
regex = "=1.13.1"
log = "=0.4.34"
env_logger = "=0.11.11"
clap = { version = "=4.6.7", features = ["derive"] }
reqwest = { version = "=0.12.28", default-features = false, features = ["rustls-tls", "blocking"] }
teloxide = { version = "=0.17.0", default-features = false, features = ["rustls"] }
takecell = "=0.1.1"
tokio = { version = "=1.53.2", features = ["rt-multi-thread", "macros", "time"] }
