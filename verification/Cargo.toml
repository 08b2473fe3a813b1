[package]
name = "memstrap"
version = "0.1.0"
edition = "2021"
publish = false

[dependencies]
clap = { version = "4", features = ["derive"] }
csv = "1"
encoding_rs = "0.8"
hex = "0.4"
indicatif = "0.17"
memmap2 = "0.9"
num_cpus = "1"
rayon = "1"
regex = "1"
thiserror = "1"
