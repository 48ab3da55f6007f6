[package]
name = "pi_digits"
version = "0.1.0"
edition = "2021"
publish = false

[dependencies]
anyhow = "1"
clap = { version = "4", features = ["derive"] }
ctrlc = "3"
indicatif = "0.17"
libc = "0.2"
memmap2 = "0.9"
rand = "0.8"
rayon = "1"
serde = { version = "1", features = ["derive"] }
toml = "0.8"
