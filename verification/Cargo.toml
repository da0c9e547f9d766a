[package]
name = "mdminecraft_world"
version = "0.1.0"
edition = "2021"
publish = false

[dependencies]
anyhow = "=1.0.104"
bincode = "=1.3.3"
crc32fast = "=1.5.4"
lru = "*"
rand = "=0.8.8"
serde = { version = "=1.0.229", features = ["derive"] }
zstd = "=0.13.4"

[dev-dependencies]
serde_json = "=1.0.154"
