[package]
name = "tachiom"
version = "0.3.0"
edition = "2021"
publish = false

[dependencies]
anyhow = "1"
clap = { version = "4", features = ["derive"] }
half = "=2.7.1"
kannolo = "=0.3.8"
ndarray = "=0.16.1"
ndarray-npy = "=0.9.1"
numpy = { version = "=0.24.0", features = ["half"] }
pyo3 = "=0.24.2"
rand = "=0.8.8"
rayon = "1"
rustc-hash = "=2.1.3"
serde = { version = "1", features = ["derive"] }
tracing = "=0.1.44"
tracing-subscriber = "=0.3.23"
