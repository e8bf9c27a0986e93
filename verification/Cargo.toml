[package]
name = "arloader"
version = "0.1.20"
edition = "2021"
publish = false

[dependencies]
blake3 = { version = "=1.8.7", features = ["pure"] }
chrono = { version = "=0.4.45", features = ["serde"] }
futures = "=0.3.34"
infer = "=0.13.0"
log = "=0.4.35"
num-bigint = "=0.4.8"
reqwest = { version = "=0.11.27", default-features = false, features = ["json", "rustls-tls"] }
ring = "=0.17.14"
serde = { version = "=1.0.229", features = ["derive"] }
serde_json = "=1.0.154"
tokio = { version = "=1.54.1", features = ["fs", "macros", "rt"] }
url = "=2.5.8"
