[package]
name = "fraken_x"
version = "0.1.0"
edition = "2021"
publish = false

[dependencies]
anyhow = "=1.0.104"
clap = { version = "=4.6.7", features = ["derive"] }
crossbeam = "=0.8.5"
serde = { version = "=1.0.229", features = ["derive"] }
serde_json = "=1.0.151"
sha256 = "=1.6.0"
superconsole = "=0.2.0"
yansi = "=1.0.1"
yara-x = { version = "=1.21.0", default-features = false, features = ["constant-folding", "default-modules", "exact-atoms", "fast-regexp"] }
