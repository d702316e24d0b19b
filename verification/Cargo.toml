[package]
name = "tunecall"
version = "0.1.0"
edition = "2021"
publish = false

[dependencies]
anyhow = "1"
serde = { version = "1", features = ["derive"] }
serde_json = "1"
toml = "*"
dirs = "*"
log = "0.4"
rusqlite = { version = "*", features = ["bundled"] }
clap = { version = "4", features = ["derive"] }
reqwest = { version = "*", default-features = false, features = ["stream"] }
futures-util = "0.3"
pdfium-render = "*"
