[package]
name = "faster_paddle"
version = "1.0.4"
edition = "2021"
publish = false

[dependencies]
base64 = "0.22"
dirs = "5"
image = { version = "0.25", default-features = false, features = ["bmp", "gif", "jpeg", "png", "tiff", "webp"] }
ort = { version = "2.0.0-rc.10", default-features = false, features = ["load-dynamic", "std"] }
pyo3 = { version = "0.24", features = ["abi3-py38", "extension-module"] }
rayon = "1"
serde_json = "1"
ureq = "2"
