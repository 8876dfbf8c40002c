[package]
name = "icfpc2025"
version = "0.1.0"
edition = "2021"
publish = false

[dependencies]
rand = "0.9"
itertools = "0.14"
serde = { version = "1", features = ["derive"] }
serde_json = "1"
reqwest = { version = "0.12", default-features = false, features = ["blocking", "json"] }
actix-web = { version = "4", default-features = false, features = ["macros"] }
env_logger = "0.11"
log = "0.4"
