[package]
name = "cowchat-server"
version = "0.1.0"
edition = "2021"
publish = false

[dependencies]
rand = "=0.8.8"
sha2 = "=0.10.9"
hmac = "=0.12.1"
base64 = "=0.22.1"
uuid = { version = "=1.29.0", features = ["v4"] }
chrono = "=0.4.45"
serde = { version = "=1.0.229", features = ["derive"] }
serde_json = "=1.0.154"
log = "=0.4.35"
dashmap = "=6.2.1"
tokio = { version = "=1.54.1", features = ["rt-multi-thread", "macros", "sync", "time", "net", "io-util", "signal"] }
rusqlite = { version = "=0.32.1", features = ["bundled"] }
thiserror = "=1.0.69"
fs2 = "=0.4.3"
axum = { version = "0.8", features = ["ws"] }
futures = "0.3"
reqwest = { version = "0.12", default-features = false }
tower-http = { version = "0.6", features = ["cors"] }
mime_guess = "2"
