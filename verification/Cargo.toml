[package]
name = "wallet_watcher"
version = "0.1.0"
edition = "2021"
publish = false

[dependencies]
alloy-chains = "*"
clap = { version = "*", features = ["derive", "env"] }
eyre = "*"
num_cpus = "*"
serde = { version = "*", features = ["derive"] }
serde_json = "*"
serde_yaml = "*"
tokio = { version = "*", features = ["macros", "rt-multi-thread", "sync", "time"] }
tracing = "*"
tracing-subscriber = "*"
