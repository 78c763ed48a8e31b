[package]
name = "ammo"
version = "0.1.0"
edition = "2021"
publish = false

[dependencies]
bytes = "=1.12.1"
governor = "=0.6.3"
rand = "=0.8.8"
rand_chacha = "=0.3.1"
ahash = "=0.8.12"
arrayvec = "=0.7.8"
smallvec = "=1.16.4"
serde = { version = "=1.0.229", features = ["derive"] }
thiserror = "=1.0.69"
derive_more = "=0.99.20"
anyhow = "=1.0.104"
log = "=0.4.35"
env_logger = "=0.10.2"
atomic_refcell = "=0.1.14"
tokio = { version = "1", features = ["net", "sync", "time", "macros", "rt", "io-util"] }
derive_builder = "0.12"
