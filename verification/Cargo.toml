[package]
name = "ws_monitor"
version = "0.1.0"
edition = "2021"
publish = false

[dependencies]
actix-web = "*"
anyhow = "*"
clap = { version = "*", features = ["derive"] }
jsonrpsee = { version = "*", features = ["ws-client"] }
tokio = { version = "*", features = ["macros", "rt-multi-thread", "time"] }
tracing = "*"
tracing-subscriber = "*"
