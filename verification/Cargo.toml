[package]
name = "mimir"
version = "0.1.0"
edition = "2021"
publish = false

[dependencies]
ropey = "1"
nucleo-matcher = "0.3"
tower-lsp = "0.20"
serde = { version = "1", features = ["derive"] }
serde_json = "1"
toml = "0.8"
thiserror = "1"
tokio = { version = "1", features = ["macros", "rt-multi-thread", "io-std", "io-util", "process", "sync", "time", "fs"] }
tracing = "0.1"
tracing-subscriber = { version = "0.3", features = ["env-filter"] }
