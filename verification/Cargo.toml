[package]
name = "qurli"
version = "1.1.0"
edition = "2021"
publish = false

[dependencies]
serde = { version = "1", features = ["derive"] }
serde_json = "1"
reqwest = { version = "0.12", default-features = false, features = ["rustls-tls"] }
tokio = { version = "1", features = ["macros", "rt-multi-thread", "sync", "time"] }
crossterm = { version = "0.28", features = ["event-stream"] }
ratatui = "0.29"
tui-textarea = "0.7"
futures = "0.3"
arboard = { version = "3", default-features = false }
dirs = "5"
