[package]
name = "backdown"
version = "1.0.0"
edition = "2021"
publish = false

[dependencies]
anyhow = "=1.0.104"
argh = "=0.1.19"
blake3 = "=1.8.7"
chrono = "=0.4.45"
cli-log = "=2.1.1"
crossbeam = "=0.8.5"
file-size = "=1.0.3"
fnv = "=1.0.7"
lazy-regex = "=3.6.2"
rayon = "=1.12.0"
serde_json = "=1.0.154"
termimad = "=0.35.5"
