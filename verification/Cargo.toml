[package]
name = "check_file_dups"
version = "0.1.0"
edition = "2021"
publish = false

[dependencies]
anyhow = "1"
blake3 = "1"
clap = { version = "4", features = ["derive"] }
colored = "2"
ctrlc = "3"
indicatif = "0.17"
log = "0.4"
rayon = "1"
serde = { version = "1", features = ["derive"] }
serde_json = "1"
simplelog = "0.12"
time = { version = "0.3", features = ["macros"] }
toml = "0.8"
walkdir = "2"
zstd = { version = "0.13", features = ["zstdmt"] }
