[package]
name = "proxybroker"
version = "1.1.0"
edition = "2021"
publish = false

[dependencies]
clap = { version = "4", features = ["derive"] }
crossterm = { version = "*", features = ["event-stream"] }
futures-util = "0.3"
indicatif = "*"
maxminddb = "0.29"
ratatui = "*"
redis = { version = "*", default-features = false, features = ["script"] }
regex = "1"
reqwest = { version = "*", default-features = false, features = ["rustls-no-provider"] }
rusqlite = { version = "*", features = ["bundled"] }
rustls = { version = "0.23", default-features = false, features = ["ring", "std", "tls12"] }
serde_json = "1"
tokio = { version = "1", features = ["full"] }
tokio-util = { version = "0.7", features = ["rt"] }
tracing = "0.1"
tracing-subscriber = { version = "0.3", features = ["env-filter", "json"] }
