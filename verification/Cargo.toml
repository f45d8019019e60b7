[package]
name = "infra_core"
version = "0.1.0"
edition = "2021"
publish = false

[dependencies]
bytes = "1"
rand = "0.8"
serde = { version = "1", features = ["derive"] }
parking_lot = "0.12"
mio = { version = "1", features = ["os-poll", "net"] }
tokio = { version = "1", features = ["rt-multi-thread", "sync", "time", "net", "io-util", "macros"] }
tracing = "0.1"
tracing-subscriber = "0.3"
libc = "0.2"
