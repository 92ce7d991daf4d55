[package]
name = "lattice_core"
version = "0.1.0"
edition = "2021"
publish = false

[dependencies]
anyhow = "1"
blake3 = "1"
bs58 = { version = "0.5", features = ["check"] }
clap = { version = "4", features = ["derive"] }
dirs = "5"
ed25519-dalek = { version = "2", features = ["rand_core"] }
hex = "0.4"
hostname = "0.4"
prost = "0.13"
rand = "0.8"
redb = "2"
regex = "1"
regex-syntax = "0.8"
thiserror = "2"
tokio = { version = "1", features = ["rt-multi-thread", "macros", "sync", "signal", "time"] }
tracing = "0.1"
tracing-subscriber = { version = "0.3", features = ["env-filter"] }
uuid = { version = "1", features = ["v4"] }
zeroize = "1"

[dev-dependencies]
tempfile = "3"
