[package]
name = "slipstream"
version = "0.1.0"
edition = "2021"
publish = false

[dependencies]
bytes = "1"
clap = { version = "4", features = ["derive"] }
libc = "0.2"
tokio = { version = "1", features = ["rt", "net", "io-util", "sync", "time", "macros"] }
tquic = "*"
tracing = "0.1"
tracing-subscriber = { version = "0.3", features = ["env-filter"] }
