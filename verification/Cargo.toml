[package]
name = "hoard_chunker"
version = "0.1.0"
edition = "2021"
publish = false

[dependencies]
anyhow = "=1.0.104"
blake3 = "=1.8.7"
clap = { version = "=4.6.7", features = ["derive"] }
fastcdc = "=5.0.0"
log = "=0.4.34"
num_cpus = "=1.17.0"
opendal = { version = "=0.59.4", default-features = false, features = ["services-fs"] }
simplelog = "=0.12.2"
tokio = { version = "=1.53.2", features = ["rt"] }
walkdir = "=2.5.0"
zstd = "=0.14.0"

[dev-dependencies]
rmp-serde = "=1.3.1"
serde_json = "=1.0.151"
