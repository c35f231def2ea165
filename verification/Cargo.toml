[package]
name = "engramai"
version = "0.4.0"
edition = "2021"
publish = false

[dependencies]
chrono = { version = "=0.4.45", default-features = false, features = ["clock", "std"] }
infomap-rs = "=0.1.1"
log = "0.4"
lru = "=0.12.5"
rand = "=0.8.8"
regex = "=1.13.1"
reqwest = { version = "0.12", default-features = false, features = ["blocking", "json"] }
rusqlite = { version = "0.31", features = ["bundled"] }
serde = { version = "1", features = ["derive"] }
serde_json = { version = "=1.0.154", features = ["float_roundtrip"] }
sha2 = "=0.10.9"
two_timer = "=2.2.5"
uuid = { version = "=1.29.0", features = ["v4"] }
