[package]
name = "talimist"
version = "0.1.0"
edition = "2021"
publish = false

[dependencies]
base64 = "=0.22.1"
clap = { version = "4", features = ["derive"] }
dirs = "=7.0.0"
flate2 = "=1.1.10"
futures = "=0.3.34"
http-body-util = "=0.1.5"
hyper = { version = "=1.12.0", features = ["server", "http1"] }
hyper-tungstenite = "*"
hyper-util = { version = "=0.1.21", features = ["tokio", "server", "server-auto", "server-graceful"] }
log = "=0.4.35"
lsp-types = "=0.95.1"
parking_lot = "=0.12.5"
resvg = "=0.49.0"
serde = { version = "=1.0.229", features = ["derive"] }
serde_json = "=1.0.154"
sha2 = "=0.10.9"
tokio = { version = "=1.54.1", features = ["rt-multi-thread", "net", "time", "sync", "macros", "io-util"] }
typst-syntax = "=0.13.1"
