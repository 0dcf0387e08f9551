[package]
name = "engine_3l14"
version = "0.1.0"
edition = "2021"
publish = false

[dependencies]
crossbeam = "=0.8.5"
metrohash = "=1.0.7"
rand = "=0.9.5"
unicase = "=2.10.0"
indexmap = "=2.14.2"
base64 = "=0.22.1"
serde = { version = "=1.0.229", features = ["derive"] }
toml = "=0.8.23"
clap = { version = "=4.6.7", features = ["derive"] }
log = "=0.4.35"
bitcode = { version = "=0.6.9", features = ["derive"] }
smallvec = "1"
