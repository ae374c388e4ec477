[package]
name = "pir_core"
version = "0.1.0"
edition = "2021"
publish = false

[dependencies]
anyhow = "=1.0.104"
arc-swap = "=1.9.3"
axum = "=0.7.9"
base64 = "=0.22.1"
chrono = { version = "=0.4.45", features = ["serde"] }
clap = { version = "=4.6.7", default-features = false, features = ["derive", "env", "error-context", "help", "std", "usage"] }
hex = "=0.4.3"
inspiring = "=0.1.0-rc.3"
ipir-sp = { version = "=0.1.0-rc.8", features = ["experimental-key-reuse"] }
prometheus = { version = "=0.13.4", default-features = false }
reqwest = { version = "=0.12.28", default-features = false, features = ["json", "stream"] }
serde = { version = "=1.0.229", features = ["derive"] }
serde_json = "=1.0.154"
sha2 = "=0.10.9"
spiral-rs = "=0.2.0"
sysinfo = { version = "=0.33.1", default-features = false, features = ["system"] }
thiserror = "=1.0.69"
tokio = { version = "=1.54.1", features = ["full"] }
tracing = "=0.1.44"
tracing-subscriber = { version = "=0.3.23", default-features = false, features = ["env-filter", "fmt"] }
zakura-chain = { version = "=6.2.0", default-features = false }
