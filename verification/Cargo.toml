[package]
name = "keychords"
version = "0.1.0"
edition = "2021"
publish = false

[dependencies]
directories = "*"
crossterm = { version = "*", features = ["event-stream"] }
tokio = { version = "1", features = ["rt-multi-thread", "macros", "sync", "time"] }
tokio-util = "0.7"
futures = "0.3"
color-eyre = "0.6"
config = { version = "*", default-features = false, features = ["toml"] }
serde = { version = "1", features = ["derive"] }
tracing = "0.1"
