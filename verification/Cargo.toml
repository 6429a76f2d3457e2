[package]
name = "meetings"
version = "0.1.0"
edition = "2021"
publish = false

[dependencies]
anyhow = "=1.0.104"
chrono = "=0.4.45"
log = "=0.4.35"
ndarray = "=0.17.2"
ort = { version = "=2.0.0-rc.12", default-features = false, features = ["ndarray", "std", "load-dynamic", "api-24"] }
reqwest = { version = "=0.12.28", default-features = false, features = ["blocking", "rustls-tls"] }
rusqlite = { version = "=0.40.2", features = ["bundled"] }
rusqlite_migration = "=2.6.0"
serde = { version = "=1.0.229", features = ["derive"] }
serde_json = "=1.0.154"
