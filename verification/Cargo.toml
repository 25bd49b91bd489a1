[package]
name = "perf_core"
version = "0.1.0"
edition = "2021"
publish = false

[dependencies]
nix = { version = "0.29", features = ["time"] }
clap = { version = "4", features = ["derive"] }
memmap2 = "0.9"
byteorder = "1"
serde = { version = "1", features = ["derive"] }
serde_json = "1"
nom = "7"
rand = "0.8"
rand_chacha = "0.3"
