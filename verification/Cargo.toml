[package]
name = "otterly"
version = "0.1.0"
edition = "2021"
publish = false

[dependencies]
comrak = { version = "=0.50.0", default-features = false }
git2 = { version = "=0.20.4", default-features = false }
log = "=0.4.35"
rusqlite = { version = "=0.41.1", features = ["bundled"] }
serde = { version = "=1.0.229", features = ["derive"] }
walkdir = "=2.5.0"
