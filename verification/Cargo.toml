[package]
name = "whatthefile"
version = "0.1.0"
edition = "2021"
publish = false

[dependencies]
base64 = "=0.22.1"
blake3 = "=1.8.7"
calamine = "=0.30.1"
docx-rs = "=0.4.22"
image = { version = "=0.25.10", default-features = false, features = ["png", "jpeg"] }
log = "=0.4.35"
pdfium-render = "=0.8.37"
regex = "=1.13.1"
rusqlite = { version = "=0.32.1", features = ["bundled"] }
serde = { version = "=1.0.229", features = ["derive"] }
serde_json = "=1.0.154"
sqlite-vec = "=0.1.9"
tempfile = "=3.27.0"
thiserror = "=2.0.21"
ureq = { version = "=2.12.1", features = ["json"] }
walkdir = "=2.5.0"
whatlang = "=0.16.4"
