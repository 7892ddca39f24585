[package]
name = "nusantara"
version = "0.1.0"
edition = "2021"
publish = false

[dependencies]
borsh = { version = "=1.8.1", features = ["derive"] }
dashmap = "=6.2.1"
metrics = "=0.24.6"
quinn = "=0.11.12"
rand = "=0.10.3"
rcgen = "=0.14.10"
reed-solomon-erasure = "=6.0.0"
rocksdb = "=0.25.0"
rustls = "=0.23.46"
thiserror = "=2.0.21"
tokio = { version = "=1.54.1", features = ["net", "sync", "time", "rt", "rt-multi-thread", "macros"] }
tracing = "=0.1.44"
zstd = "=0.13.4"

[dev-dependencies]
tempfile = "=3.27.0"
