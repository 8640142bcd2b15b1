[package]
name = "simple_backup"
version = "0.1.0"
edition = "2021"
publish = false

[dependencies]
chrono = "=0.4.45"
clap = { version = "=4.6.7", features = ["derive"] }
dirs = "=5.0.1"
indicatif = "=0.17.11"
num_cpus = "=1.17.0"
number_prefix = "=0.4.0"
path-absolutize = "=3.1.1"
path-clean = "=1.0.1"
regex = "=1.13.1"
serde = { version = "=1.0.229", features = ["derive"] }
serde_yaml = "=0.9.34"
tar = "=0.4.46"
zstd = { version = "=0.13.4", features = ["zstdmt"] }

[dev-dependencies]
tempfile = "=3.27.0"
