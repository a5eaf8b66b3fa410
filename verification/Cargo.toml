[package]
name = "graphify_plugins"
version = "0.1.0"
edition = "2021"
publish = false

[dependencies]
anyhow = "=1.0.104"
chrono = "=0.4.45"
fs2 = "=0.4.3"
pulldown-cmark = { version = "=0.12.2", default-features = false }
rusqlite = { version = "=0.32.1", features = ["bundled"] }
serde = { version = "=1.0.229", features = ["derive"] }
serde_json = "=1.0.154"
sha1 = "=0.10.7"
thiserror = "=1.0.69"
ureq = { version = "=2.12.1", features = ["json"] }
uuid = { version = "=1.29.0", features = ["v4"] }
