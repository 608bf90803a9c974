[package]
name = "prime_search"
version = "0.1.0"
edition = "2021"
publish = false

[dependencies]
rand = "*"
crossbeam = "*"
csv = "*"
clap = { version = "*", features = ["derive"] }
env_logger = "*"
indicatif = "*"
log = "*"
