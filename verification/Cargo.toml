[package]
name = "aitia"
version = "0.2.0"
edition = "2021"
publish = false

[dependencies]
petgraph = "=0.6.5"
anyhow = "=1.0.104"
serde = { version = "=1.0.203", features = ["derive", "rc"] }
rmp-serde = "=1.3.0"
bloomfilter = "=1.0.16"
structopt = "=0.3.26"
thiserror = "=1.0.69"
proptest = "=1.12.0"
holo_hash = { version = "=0.3.6", features = ["encoding", "hashing"] }
holochain_serialized_bytes = "=0.0.55"
holochain_zome_types = { version = "=0.3.6", default-features = false }
async-trait = "0.1"
futures = "=0.3.34"

[dev-dependencies]
tempfile = "=3.27.0"
