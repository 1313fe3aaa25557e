[package]
name = "cardigan"
version = "0.1.0"
edition = "2021"
publish = false

[dependencies]
sha2 = "0.10"
anyhow = "1"
async-trait = "0.1"
clap = { version = "4", features = ["derive", "cargo"] }
config = "0.14"
serde = { version = "1", features = ["derive"] }
tokio = { version = "1", features = ["rt-multi-thread", "macros", "time", "signal", "sync"] }
tokio-util = "0.7"
tokio-graceful-shutdown = "*"
tracing = "0.1"
tracing-subscriber = { version = "0.3", features = ["env-filter", "fmt"] }
tracing-log = "0.2"
log = "0.4"
mimalloc = "*"
chrono = "0.4"
