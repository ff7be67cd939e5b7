[package]
name = "impulse_graph_tooling"
version = "0.9.0"
edition = "2021"
publish = false

[dependencies]
ed25519-dalek = { version = "2", features = ["rand_core"] }
sha2 = "0.10"
rand = "0.8"
rayon = "1"
clap = { version = "4", features = ["derive"] }
clap_mangen = "0.2"
comfy-table = "7"
serde = { version = "1", features = ["derive"] }
serde_json = "1"
memmap2 = "0.9"
safetensors = "0.4"
parquet = { version = "53", default-features = false, features = ["arrow"] }
arrow-array = "53"
