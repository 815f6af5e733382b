[package]
name = "pandas_pouch"
version = "0.1.0"
edition = "2021"
publish = false

[dependencies]
dashmap = "6"
twox-hash = "1.6"
tokio = { version = "1", features = ["macros", "rt-multi-thread", "sync", "time"] }
tonic = "0.12"
prost = "0.13"
sqlx = { version = "0.8", default-features = false, features = ["postgres", "runtime-tokio"] }
config = { version = "0.14", default-features = false, features = ["toml"] }
serde = { version = "1", features = ["derive"] }
dotenv = "0.15"
env_logger = "0.11"
log = "0.4"
