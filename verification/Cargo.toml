[package]
name = "vector"
version = "0.1.0"
edition = "2021"
publish = false

[dependencies]
rdkafka = "*"
chrono = "0.4"
toml = "0.5"
serde = { version = "1", features = ["derive"] }
serde_json = "1"
bytes = "1"
futures = "0.3"
tokio = { version = "1", features = ["full"] }
warp = "0.3"
