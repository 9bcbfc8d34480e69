[package]
name = "playlist_sync"
version = "0.1.0"
edition = "2021"
publish = false

[dependencies]
rspotify = { version = "=0.12.0", default-features = false, features = ["cli", "client-reqwest", "reqwest-rustls-tls"] }
tokio = { version = "=1.53.2", features = ["macros", "rt-multi-thread"] }
futures = "=0.3.34"
chrono = { version = "=0.4.45", features = ["serde"] }
serde = { version = "=1.0.229", features = ["derive"] }
serde_json = "=1.0.151"
