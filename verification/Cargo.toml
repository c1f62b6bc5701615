[package]
name = "qaul_router"
version = "0.1.0"
edition = "2021"
publish = false

[dependencies]
libp2p = { version = "0.54", default-features = false, features = ["ed25519"] }
sha2 = "0.10"
rand = "0.8"
bitvec = "1"
thiserror = "1"
