[package]
name = "point_tiler"
version = "0.1.0"
edition = "2021"
publish = false

[dependencies]
bitcode = "0.6"
cesiumtiles = "*"
chrono = "0.4"
clap = { version = "4", features = ["derive"] }
env_logger = "0.11"
glob = "0.3"
log = "0.4"
num_cpus = "1"
rayon = "1"
serde = { version = "1", features = ["derive"] }
serde_json = "1"
tempfile = "3"
