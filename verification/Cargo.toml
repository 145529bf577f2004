[package]
name = "mikrotik_api"
version = "0.1.0"
edition = "2021"
publish = false

[dependencies]
ctor = "=0.2.9"
mikrotik-rs = { version = "=0.10.0", features = ["tokio-tls"] }
rustls = { version = "=0.23.46", default-features = false, features = ["ring", "std", "tls12"] }
tokio = { version = "=1.54.1", features = ["rt-multi-thread", "sync", "time", "net"] }
