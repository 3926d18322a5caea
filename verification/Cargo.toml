[package]
name = "trsp"
version = "0.1.0"
edition = "2021"
publish = false

[dependencies]
encoding_rs = "0.8"
ipnet = "2"
tokio = { version = "1", features = ["rt-multi-thread", "net", "sync", "time", "io-util", "macros", "signal"] }
hickory-proto = "0.24"
hickory-server = { version = "0.24", features = ["resolver"] }
hickory-resolver = "0.24"
chrono = "0.4"
clap = { version = "4", features = ["derive", "env"] }
reqwest = { version = "0.12", default-features = false }
tracing = "0.1"
tracing-subscriber = "0.3"
async-trait = "0.1"
