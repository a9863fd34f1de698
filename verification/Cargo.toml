[package]
name = "popo"
version = "0.1.0"
edition = "2021"
publish = false

[dependencies]
regex = "1"
scraper = "0.20"
unicode-normalization = "0.1"
image = { version = "0.25", default-features = false, features = ["jpeg"] }
base64 = "0.22"
serde = { version = "1", features = ["derive"] }
serde_json = { version = "1", features = ["preserve_order"] }
toml = "0.8"
clap = { version = "4", features = ["derive", "env"] }
anyhow = "1"
thiserror = "1"
tokio = { version = "1", features = ["macros", "rt-multi-thread", "sync", "time"] }
tracing = "0.1"
tracing-subscriber = { version = "0.3", features = ["env-filter", "fmt"] }
reqwest = { version = "0.12", default-features = false, features = ["json"] }
async-trait = "0.1"
metrics = "0.24"
metrics-exporter-prometheus = { version = "0.16", default-features = false }
pdfium-render = { version = "0.8", default-features = false, features = ["thread_safe"] }
