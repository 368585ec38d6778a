[package]
name = "stream_pipe"
version = "0.1.0"
edition = "2021"
publish = false

[dependencies]
bytes = "1"
reqwest = { version = "0.12", default-features = false, features = ["stream"] }
tracing = "0.1"
tokio = { version = "1", features = ["rt-multi-thread", "macros", "sync", "time"] }
futures-util = "0.3"
config = { version = "0.14", default-features = false, features = ["toml"] }
serde = { version = "1", features = ["derive"] }
thiserror = "1"
tracing-appender = "0.2"
tracing-subscriber = { version = "0.3", features = ["env-filter", "fmt"] }
