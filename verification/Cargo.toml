[package]
name = "oxy_torrent"
version = "0.1.0"
edition = "2021"
publish = false

[dependencies]
rand = "=0.8.8"
reqwest = { version = "=0.12.28", default-features = false, features = ["rustls-tls"] }
rfd = { version = "0.14", default-features = false, features = ["xdg-portal", "tokio"] }
serde = { version = "1", features = ["derive"] }
serde_bencode = "=0.2.4"
serde_bytes = "=0.11.19"
serde_json = "=1.0.154"
sha1 = "=0.10.7"
slint = { version = "=1.4.1", default-features = false, features = ["compat-1-2", "std"] }
tokio = { version = "=1.54.1", features = ["fs", "io-util", "net", "rt-multi-thread", "sync", "time"] }
urlencoding = "=2.1.3"
