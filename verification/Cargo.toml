[package]
name = "rust-onnx-infer"
version = "0.1.0"
edition = "2021"
publish = false

[dependencies]
async-trait = "0.1"
fast_image_resize = "*"
ort = { version = "2.0.0-rc.10", default-features = false, features = ["std", "load-dynamic"] }
tracing = "0.1"
