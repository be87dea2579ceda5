[package]
name = "ziggurat"
version = "0.1.0"
edition = "2021"
publish = false

[dependencies]
regex = "=1.13.1"
tl = "=0.7.8"
lopdf = "=0.46.0"
epub = "=2.0.0"
epub-builder = "=0.8.3"
eyre = "=0.6.14"
futures = "=0.3.34"
tokio = { version = "=1.54.1", features = ["macros", "rt-multi-thread", "sync"] }
reqwest = { version = "=0.12.28", default-features = false, features = ["json", "rustls-tls"] }
serde = { version = "=1.0.229", features = ["derive"] }
serde_json = "=1.0.154"
clap = { version = "=4.6.7", features = ["derive"] }
crossterm = "=0.25.0"
tui = "=0.19.0"
dotenv = "=0.15.0"
tracing = "=0.1.44"
tracing-subscriber = "=0.3.23"
base64 = "=0.22.1"
callm = "*"
