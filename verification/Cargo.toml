[package]
name = "m3u8_download"
version = "0.1.0"
edition = "2021"
publish = false

[dependencies]
aes = "=0.8.4"
cbc = { version = "=0.1.2", features = ["alloc", "block-padding"] }
cipher = { version = "=0.4.4", features = ["alloc", "block-padding"] }
rand = { version = "=0.8.8", features = ["small_rng"] }
reqwest = { version = "=0.12.28", default-features = false }
chrono = "=0.4.45"
serde = { version = "=1.0.229", features = ["derive"] }
serde_json = "=1.0.154"
tokio = { version = "=1.54.1", features = ["fs", "io-util", "sync", "time", "rt-multi-thread", "macros"] }
log = "=0.4.35"
anyhow = "=1.0.104"
