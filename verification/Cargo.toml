[package]
name = "phrase_fanout"
version = "0.1.0"
edition = "2021"
publish = false

[dependencies]
hex = "0.4"
ed25519-dalek = "2"
tokio = { version = "1", features = ["full"] }
futures = "0.3"
reqwest = { version = "0.12", default-features = false }
serde = { version = "1", features = ["derive"] }
serde_json = "1"
serde_cbor = "0.11"
chrono = "0.4"
url = "2"
deadpool-postgres = "0.14"
tokio-postgres-rustls = "0.13"
rustls = "0.23"
webpki-roots = "0.26"
tokio-tungstenite = { version = "0.30", features = ["rustls-tls-webpki-roots"] }
viz = "0.4"
rsky-lexicon = "0.10"
