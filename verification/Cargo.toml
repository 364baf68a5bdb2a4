[package]
name = "file_search"
version = "0.1.0"
edition = "2021"
publish = false

[dependencies]
anyhow = "1"
crossbeam-channel = "0.5"
ignore = "0.4"
libc = "0.2"
nucleo = "0.5"
ratatui = { version = "0.29", default-features = false, features = ["scrolling-regions"] }
serde = { version = "1", features = ["derive"] }
serde_json = "1"
tokio = { version = "1", default-features = false, features = ["process", "rt", "sync"] }
vt100 = "0.15"
