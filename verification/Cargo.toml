[package]
name = "gifpipe"
version = "0.1.0"
edition = "2021"
publish = false

[dependencies]
anyhow = "=1.0.104"
ciborium = "=0.2.2"
clap = { version = "=4.6.7", features = ["derive"] }
color_quant = "=1.1.0"
crc32fast = "=1.5.3"
env_logger = "=0.11.11"
gif = "=0.14.2"
image = { version = "=0.25.10", default-features = false }
log = "=0.4.34"
palette = "0.7"
serde = { version = "=1.0.229", features = ["derive"] }
serde_cbor = "=0.11.2"
sha2 = "=0.10.9"
