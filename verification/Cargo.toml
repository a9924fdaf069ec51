[package]
name = "bingers"
version = "0.1.0"
edition = "2021"
publish = false

[dependencies]
chrono = "0.4"
clap = "2"
app_dirs = "1"
serde = "1"
serde_derive = "1"
serde_json = "1"
futures = "0.3"
hyper = { version = "0.14", features = ["client", "http1", "runtime", "tcp"] }
hyper-tls = "0.5"
native-tls = "0.2"
tokio = { version = "1", features = ["rt", "time", "net"] }
tokio-retry = "0.3"
