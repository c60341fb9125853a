[package]
name = "heatmap_processing"
version = "0.1.0"
edition = "2021"
publish = false

[dependencies]
byteorder = "=1.5.0"
clap = { version = "=4.6.7", features = ["derive"] }
csv = "=1.4.0"
dicom = "=0.10.0"
dicom-pixeldata = { version = "=0.10.0", features = ["image"] }
env_logger = "=0.11.11"
image = { version = "=0.25.10", default-features = false, features = ["png"] }
log = "=0.4.34"
ndarray = "=0.17.2"
num-bigint = "=0.4.8"
serde_json = "=1.0.154"
