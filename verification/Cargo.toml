[package]
name = "fast_walk"
version = "0.2.0"
edition = "2021"
publish = false

[dependencies]
anyhow = "1"
clap = { version = "4", features = ["derive"] }
colored = "2"
comfy-table = "7"
csv = "1"
emoji = "*"
indicatif = "0.17"
jwalk = "0.8"
num_cpus = "1"
rayon = "1"
