[package]
name = "bunnymeshdb"
version = "0.4.1"
edition = "2021"
publish = false

[dependencies]
axum = "=0.8.9"
clap = { version = "4", features = ["derive"] }
ed25519-dalek = "=2.2.0"
fuser = { version = "=0.18.0", default-features = false }
futures = "0.3"
getrandom = "=0.3.4"
hex = "=0.4.3"
libc = "0.2"
libp2p = { version = "=0.55.0", features = ["ed25519", "json", "macros", "noise", "request-response", "tcp", "tokio", "yamux"] }
parking_lot = "0.12"
rustls-pemfile = "1"
serde = { version = "1", features = ["derive"] }
serde_json = { version = "=1.0.154", features = ["preserve_order"] }
sha2 = "=0.10.9"
tokio = { version = "1", features = ["full"] }
tokio-rustls = { version = "0.26", default-features = false, features = ["logging", "ring", "tls12"] }
toml = "0.8"
tracing = "0.1"
tracing-subscriber = { version = "0.3", features = ["env-filter"] }
