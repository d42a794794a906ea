[package]
name = "ocr_fusion"
version = "0.1.0"
edition = "2021"
publish = false

[dependencies]
base64 = "=0.22.1"
ffmpeg-the-third = "=6.0.0"
image = "=0.25.10"
imageproc = "=0.25.1"
kreuzberg-tesseract = "=4.9.9"
oar-ocr = "=0.10.1"
rayon = "=1.12.0"
serde = { version = "=1.0.229", features = ["derive"] }
serde_json = "=1.0.154"
