[package]
name = "loxam"
version = "0.1.0"
edition = "2021"
publish = false

[dependencies]
anyhow = "1"
clap = { version = "4", features = ["derive"] }
crc32fast = "1"
indicatif = "0.17"
memchr = "2"
memmap2 = "0.9"
miniz_oxide = "0.8"
rand = "0.8"
rayon = "1"
