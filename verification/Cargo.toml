[package]
name = "monotask"
version = "0.1.0"
edition = "2021"
publish = false

[dependencies]
automerge = "0.5"
anyhow = "1"
base64 = "0.22"
chrono = "0.4"
ciborium = "0.2"
hex = "0.4"
reqwest = { version = "0.12", default-features = false, features = ["json", "rustls-tls"] }
rusqlite = { version = "*", features = ["bundled"] }
serde = { version = "1", features = ["derive"] }
serde_json = "1"
sha2 = "0.10"
thiserror = "*"
tokio = { version = "1", features = ["rt-multi-thread", "macros", "net", "io-util", "time", "sync"] }
uuid = { version = "1", features = ["v4"] }
