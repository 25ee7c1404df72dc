[package]
name = "dslab"
version = "0.1.0"
edition = "2021"
publish = false

[dependencies]
serde = { version = "1", features = ["derive"] }
serde_json = "1"
serde_yaml = "0.9"
clap = { version = "4", features = ["derive"] }
csv = "1"
itertools = "0.13"
rand = "0.8"
rand_pcg = "0.3"
indexmap = "2"
rustc-hash = "1"
strum_macros = "0.26"
