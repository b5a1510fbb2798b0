[package]
name = "session_timeline"
version = "0.1.0"
edition = "2021"
publish = false

[dependencies]
axum = "0.8"
flate2 = "1"
libc = "0.2"
rayon = "1"
rusqlite = { version = "*", features = ["bundled"] }
serde = { version = "1", features = ["derive"] }
serde_json = "1"
tokio = { version = "1", features = ["rt-multi-thread", "macros", "net"] }
