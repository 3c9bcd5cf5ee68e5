[package]
name = "cdn_ip_tester"
version = "0.1.0"
edition = "2021"
publish = false

[dependencies]
cidr = "0.2"
regex = "1"
url = "2"
clap = { version = "4", features = ["derive"] }
indicatif = "0.17"
log = "0.4"
pretty_env_logger = "0.5"
reqwest = { version = "0.12", default-features = false, features = ["socks", "rustls-tls"] }
serde = { version = "1", features = ["derive"] }
serde_json = "1"
thiserror = "1"
tokio = { version = "1", features = ["full"] }
toml = "0.8"
