[package]
name = "gaussrdl"
version = "0.1.0"
edition = "2021"
publish = false

[dependencies]
anyhow = "1"
serde = { version = "1", features = ["derive"] }
serde_json = "1"
thiserror = "1"
rand = "0.8"
candle-core = "*"
candle-nn = "*"
chrono = "0.4"
lru = "*"
ordered-float = "*"
parking_lot = "*"
rayon = "1"
sha2 = "0.10"
toml = "*"
tracing = "0.1"
uuid = { version = "1", features = ["v4"] }
