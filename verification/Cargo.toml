[package]
name = "muid_search"
version = "0.1.0"
edition = "2021"
publish = false

[dependencies]
clap = "2"
hex = "0.4"
num_cpus = "1"
rand = "0.8"
rayon = "1"
ring = "0.17"
serde_json = "1"
