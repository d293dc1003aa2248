[package]
name = "guild_steward"
version = "0.1.0"
edition = "2021"
publish = false

[dependencies]
env_logger = "0.11"
linked-hash-map = { version = "0.5", features = ["serde_impl"] }
log = "0.4"
poise = "0.6"
serde = { version = "1", features = ["derive"] }
serde_json = "1"
serde_with = "3"
serenity = "0.12"
tokio = { version = "1", features = ["macros", "rt-multi-thread", "time"] }
toml = "0.8"
