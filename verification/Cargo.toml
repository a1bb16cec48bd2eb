[package]
name = "tng"
version = "0.1.0"
edition = "2021"
publish = false

[dependencies]
anstream = "0.6"
brotli = "8"
chrono = "0.4"
clap = { version = "4", features = ["derive"] }
flate2 = "1"
owo-colors = "4"
rayon = "1"
xz2 = "0.1"
zstd = "0.13"
