[package]
name = "oj"
version = "0.1.0"
edition = "2021"
publish = false

[dependencies]
chrono = "0.4"
serde = { version = "1", features = ["derive"] }
serde_json = "1"
actix-web = { version = "4", default-features = false, features = ["macros"] }
reqwest = { version = "0.11", default-features = false, features = ["json"] }
console = "0.15"
env_logger = "0.10"
log = "0.4"
lazy_static = "1"
wait-timeout = "0.2"
