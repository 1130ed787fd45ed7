[package]
name = "hotstuff"
version = "0.1.0"
edition = "2021"
publish = false

[dependencies]
async-recursion = "=1.2.0"
async-trait = "=0.1.92"
bincode = "=1.3.3"
blake3 = "=0.3.8"
bytes = "=1.12.1"
ed25519-dalek = { version = "=1.0.1", features = ["batch"] }
futures = "=0.3.34"
itertools = "=0.10.5"
log = "=0.4.35"
rand = "=0.7.3"
reed-solomon-erasure = "=6.0.0"
rocksdb = { version = "*", default-features = false }
serde = { version = "=1.0.229", features = ["derive"] }
smtree = "=0.1.2"
tokio = { version = "=1.54.1", features = ["full"] }
