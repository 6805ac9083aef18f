[package]
name = "crypto_lib"
version = "0.1.0"
edition = "2021"
publish = false

[dependencies]
ed25519-dalek = "=1.0.1"
rand = "=0.7.3"
crypto-hash = "=0.3.4"
sha2 = "=0.10.9"
hex = "=0.4.3"
libp2p = { version = "=0.53.2", features = ["gossipsub", "mdns", "tcp", "noise", "yamux", "macros", "tokio", "dns"] }
async-std = { version = "=1.13.2", features = ["attributes"] }
futures = "=0.3.34"
tokio = { version = "=1.53.2", features = ["rt", "rt-multi-thread"] }
dialoguer = "=0.10.4"
rayon = "=1.12.0"
