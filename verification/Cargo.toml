[package]
name = "exhume_exfat"
version = "0.1.3"
edition = "2021"
publish = false

[dependencies]
clap = "=4.6.7"
clap-num = "=1.2.0"
env_logger = "=0.11.11"
exhume_body = "=0.6.0"
log = "=0.4.34"
prettytable-rs = { version = "=0.10.0", default-features = false }
serde = { version = "=1.0.229", features = ["derive"] }
serde_json = "=1.0.154"
thiserror = "=1.0.69"
