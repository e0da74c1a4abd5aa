[package]
name = "occule"
version = "0.1.0"
edition = "2021"
publish = false

[dependencies]
base64 = "0.22"
gltf = { version = "1.4", default-features = false, features = ["extras"] }
gltf-json = { version = "1.4", features = ["extras"] }
hound = "3.5"
image = { version = "0.25", default-features = false, features = ["png", "bmp", "webp", "tiff", "qoi"] }
img-parts = "0.3"
serde_json = { version = "1", features = ["raw_value"] }
thiserror = "1"
