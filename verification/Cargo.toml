[package]
name = "ormdb"
version = "0.1.0"
edition = "2021"
publish = false

[dependencies]
sled = "0.34"
serde = { version = "1", features = ["derive"] }
serde_json = "1"
openraft = { version = "0.9", features = ["serde", "storage-v2"] }
anyerror = "0.1"
parking_lot = "0.12"
rkyv = "0.8"
clap = { version = "4", features = ["derive"] }
tokio = { version = "1", features = ["full"] }
tracing = "0.1"
tracing-subscriber = { version = "0.3", features = ["env-filter"] }
thiserror = "1"
nng = "1"
async-nng = "*"

[dev-dependencies]
tempfile = "3"
