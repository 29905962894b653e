[package]
name = "vaultsync"
version = "0.1.0"
edition = "2021"
publish = false

[dependencies]
keyvalues-parser = "*"
uuid = { version = "1", features = ["v4"] }
rusqlite = { version = "*", features = ["bundled"] }
walkdir = "2"
serde = { version = "1", features = ["derive"] }
serde_json = "1"
reqwest = { version = "0.12", default-features = false, features = ["json", "rustls-tls"] }
tokio = { version = "1", features = ["rt", "time"] }
sysinfo = "*"
once_cell = "1"
