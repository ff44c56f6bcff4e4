[package]
name = "accum"
version = "0.1.0"
edition = "2021"
publish = false

[dependencies]
argon2 = "0.5"
bincode = "1.3"
bs58 = "0.5"
chrono = { version = "0.4", default-features = false, features = ["clock"] }
dirs = "5"
hex = "0.4"
lazy_static = "1.4"
parking_lot = "0.12"
rand = "0.8"
reqwest = { version = "0.11", default-features = false, features = ["blocking"] }
ripemd = "0.1"
rocksdb = { version = "0.21", default-features = false, features = ["lz4"] }
secp256k1 = { version = "0.28", features = ["rand-std"] }
serde = { version = "1", features = ["derive"] }
serde_json = "1"
sha2 = "0.10"
thiserror = "1"
tokio = { version = "1", features = ["rt-multi-thread", "macros", "signal", "time"] }
toml = "0.8"
warp = { version = "0.3", default-features = false }
