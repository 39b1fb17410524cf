[package]
name = "pythia_kernels"
version = "0.1.0"
edition = "2021"
publish = false

[dependencies]
rustler = "=0.36.2"
serde = { version = "=1.0.229", features = ["derive"] }
serde_json = "=1.0.154"
