[package]
name = "strata"
version = "0.1.0"
edition = "2021"
publish = false

[dependencies]
sha2 = "0.10"
serde = { version = "1", features = ["derive"] }
serde_json = "1"
anyhow = "1"
thiserror = "2"
clap = { version = "4", features = ["derive", "env"] }
tokio = { version = "1", features = ["rt-multi-thread", "macros", "sync", "time", "net"] }
futures = "0.3"
tracing = "0.1"
tracing-subscriber = { version = "0.3", features = ["env-filter", "json"] }
parking_lot = "0.12"
prometheus = { version = "0.14", default-features = false }
rstar = "0.12"
pdfium-render = "0.8"
image = { version = "0.25", default-features = false, features = ["png"] }
nvml-wrapper = "0.11"
reqwest = { version = "0.12", default-features = false, features = ["json"] }
rusqlite = { version = "0.37", features = ["bundled"] }
