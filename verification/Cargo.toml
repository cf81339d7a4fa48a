[package]
name = "arena_resolver"
version = "0.1.0"
edition = "2021"
publish = false

[dependencies]
actix-web = { version = "*", default-features = false, features = ["macros"] }
actix-rt = "*"
serde = { version = "*", features = ["derive"] }
serde_json = "*"
dotenv = "*"
env_logger = "*"
