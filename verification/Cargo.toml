[package]
name = "dotdb_core"
version = "0.1.0"
edition = "2021"
publish = false

[dependencies]
sha3 = "0.10"
crc32fast = "1"
bincode = { version = "2", features = ["serde"] }
serde = { version = "1", features = ["derive"] }
serde_json = "1"
hex = "0.4"
parking_lot = "0.12"
thiserror = "2"
tokio = { version = "1", default-features = false, features = ["sync", "rt", "macros"] }
libc = "0.2"

[dev-dependencies]
tempfile = "3"
