[package]
name = "sedlink"
version = "0.3.0"
edition = "2021"
publish = false

[dependencies]
surtgis-core = "*"
ndarray = "*"
clap = { version = "*", features = ["derive"] }
anyhow = "*"
thiserror = "*"
tiff = "*"
rayon = "*"
tracing-subscriber = "*"
