[package]
name = "raxtax"
version = "0.1.0"
edition = "2021"
publish = false

[dependencies]
ahash = "0.8"
anyhow = "1"
bincode = "1"
clap = { version = "4", features = ["derive"] }
clap-verbosity-flag = "*"
core_affinity = "*"
crossbeam = "0.8"
env_logger = "*"
exitcode = "1"
flate2 = "1"
indicatif = "*"
itertools = "*"
log = "0.4"
rayon = "1"
regex = "1"
serde = { version = "1", features = ["derive"] }
serde_json = "1"
statrs = "*"
