[package]
name = "metadata_engine"
version = "0.1.0"
edition = "2021"
publish = false

[dependencies]
memmap2 = "0.9"
rayon = "1"
serde = { version = "1", features = ["derive"] }
serde_json = "1"
sha2 = "0.10"
thiserror = "2"
