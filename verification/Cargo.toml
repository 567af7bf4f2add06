[package]
name = "bigpaw"
version = "0.1.0"
edition = "2021"
publish = false

[dependencies]
blake3 = "=1.8.7"
encoding_rs = "=0.8.44"
gethostname = "=0.5.0"
hex = "=0.4.3"
if-addrs = "=0.13.4"
mdns-sd = "=0.13.11"
rcgen = "=0.13.2"
rusqlite = { version = "=0.32.1", features = ["bundled"] }
rustls = { version = "=0.23.46", default-features = false, features = ["ring", "std", "tls12"] }
serde = { version = "=1.0.229", features = ["derive"] }
serde_json = "=1.0.154"
sha2 = "=0.10.9"
socket2 = { version = "=0.5.10", features = ["all"] }
tokio = { version = "=1.54.1", features = ["sync", "rt", "time", "macros"] }
uuid = { version = "=1.29.0", features = ["v4"] }
