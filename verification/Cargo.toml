[package]
name = "unitylan"
version = "0.1.0"
edition = "2021"
publish = false

[dependencies]
anyhow = "=1.0.104"
base64 = "=0.22.1"
clap = { version = "=4.6.7", features = ["derive"] }
futures = "=0.3.34"
hickory-proto = "=0.26.3"
if-addrs = "=0.15.0"
igd-next = { version = "=0.18.0", features = ["aio_tokio"] }
instant-acme = "=0.8.5"
interprocess = { version = "=2.4.7", features = ["tokio"] }
ipnet = "=2.12.2"
libc = "=0.2.191"
reqwest = { version = "=0.13.5", default-features = false, features = ["form", "json", "rustls"] }
serde = { version = "=1.0.229", features = ["derive"] }
serde_json = "=1.0.154"
sha2 = "=0.11.1"
surge-ping = "=0.9.1"
tokio = { version = "=1.54.1", features = ["full"] }
toml = "=1.1.8"
tracing = "=0.1.44"
tracing-subscriber = { version = "=0.3.23", features = ["env-filter"] }
webrtc-ice = "=0.13.0"
webrtc-util = "=0.11.0"
widestring = "1"
x509-parser = "=0.18.1"
