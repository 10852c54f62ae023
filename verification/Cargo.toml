[package]
name = "code2prompt"
version = "0.1.0"
edition = "2021"
publish = false

[dependencies]
anyhow = "1"
arboard = { version = "3", default-features = false }
clap = { version = "4", features = ["derive"] }
colored = "2"
env_logger = "0.11"
glob = "0.3"
handlebars = "4"
ignore = "0.4"
indicatif = "0.17"
inquire = "0.7"
log = "0.4"
rand = "0.8"
serde_json = "1"
termtree = "0.4"
tiktoken-rs = "0.5"

[dev-dependencies]
regex = "1"
