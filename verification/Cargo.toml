[package]
name = "ads_search"
version = "0.1.0"
edition = "2021"
publish = false

[dependencies]
xxhash-rust = { version = "=0.8.19", features = ["xxh3"] }
sha2 = "=0.10.9"
serde = { version = "=1.0.229", features = ["derive"] }
serde_json = "=1.0.154"
toml = "=0.8.23"
bincode = "1"
ark-bls12-381 = "0.3"
ark-ff = "0.3"
ark-poly = "0.3"
ark-serialize = "0.3"
