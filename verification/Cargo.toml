[package]
name = "ohc_ingest"
version = "0.1.0"
edition = "2021"
publish = false

[dependencies]
anyhow = "1"
byteorder = "1.5"
flate2 = "1"
ndarray = "0.16"
serde = { version = "1", features = ["derive"] }
serde_json = "1"
toml = "0.8"
