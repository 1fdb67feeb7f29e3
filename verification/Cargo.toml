[package]
name = "bittorrent"
version = "0.1.0"
edition = "2021"
publish = false

[dependencies]
anyhow = "1"
bytes = "=1.12.1"
clap = { version = "4", features = ["derive"] }
futures-util = { version = "=0.3.34", features = ["sink"] }
hex = "=0.4.3"
kanal = "=0.1.1"
reqwest = { version = "*", default-features = false }
serde = { version = "1", features = ["derive"] }
serde_bencode = "=0.2.4"
serde_json = "1"
serde_urlencoded = "*"
sha1 = "=0.10.7"
tokio = { version = "1", features = ["fs", "io-util", "macros", "net", "rt-multi-thread", "sync"] }
tokio-util = { version = "0.7", features = ["codec"] }
