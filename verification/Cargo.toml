[package]
name = "bridge_backend"
version = "0.1.0"
edition = "2021"
publish = false

[dependencies]
rand = "0.8"
rand_distr = "0.4"
chrono = { version = "0.4", features = ["serde"] }
serde = { version = "1", features = ["derive"] }
serde_json = "1"
actix-web = { version = "4", default-features = false, features = ["macros"] }
actix-cors = "0.7"
tokio = { version = "1", features = ["sync", "macros", "rt-multi-thread"] }
dotenv = "0.15"
env_logger = "0.11"
