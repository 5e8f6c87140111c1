[package]
name = "deduck"
version = "0.1.0"
edition = "2021"
publish = false

[dependencies]
sha2 = "=0.11.0"
blake3 = "=1.8.7"
twox-hash = "=2.1.4"
image = { version = "=0.24.9", default-features = false, features = ["png", "jpeg"] }
imagehash = "=0.3.0"
clap = { version = "=4.6.7", features = ["derive"] }
dialoguer = "=0.12.0"
dirs = "=7.0.0"
indicatif = "=0.18.6"
rayon = "=1.12.0"
walkdir = "=2.5.0"
