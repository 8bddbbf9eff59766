[package]
name = "pjsekai_soundgen_core"
version = "0.1.0"
edition = "2021"
publish = false

[dependencies]
flate2 = "1"
zip = { version = "7", default-features = false, features = ["deflate"] }
serde = { version = "1", features = ["derive"] }
serde_json = "1"
reqwest = { version = "0.12", default-features = false, features = ["rustls-tls", "json"] }
tokio = { version = "1", features = ["full"] }
dirs = "5"
anyhow = "1"
getopts = "0.2"
dialoguer = "0.11"
indicatif = "0.17"
octocrab = "0.44"
chrono = "0.4"
process_path = "0.1"
enable-ansi-support = "0.2"
