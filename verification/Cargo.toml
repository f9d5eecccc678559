[package]
name = "toggl_ontrack"
version = "0.1.0"
edition = "2021"
publish = false

[dependencies]
anyhow = "1"
chrono = "0.4"
dotenv = "0.15"
env_logger = "*"
log = "0.4"
prettytable-rs = "*"
serde = { version = "1", features = ["derive"] }
serde_yaml = "*"
structopt = "0.3"
serde_json = "1"
ureq = "2"
