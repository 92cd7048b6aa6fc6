[package]
name = "nufrost"
version = "0.1.0"
edition = "2021"
publish = false

[dependencies]
chrono = "=0.4.45"
anyhow = "=1.0.104"
clap = "=4.6.7"
serde = { version = "=1.0.229", features = ["derive"] }
serde_json = "=1.0.154"
ndarray = "=0.16.1"
ndarray-npy = "=0.9.1"
rayon = "=1.12.0"
memmap2 = "=0.9.12"
gdal = "=0.19.0"
gdal-sys = "=0.12.0"
regex = "1"
