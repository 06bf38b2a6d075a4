[package]
name = "vision_postprocessor"
version = "0.1.0"
edition = "2021"
publish = false

[dependencies]
serde = { version = "1", features = ["derive"] }
serde_json = "1"
rayon = "1"
tokio = { version = "1", features = ["macros", "rt-multi-thread", "sync"] }
log = "0.4"
env_logger = "*"
dotenvy = "0.15"
redis = { version = "*", features = ["tokio-comp"] }
deadpool-redis = { version = "*", features = ["rt_tokio_1"] }
