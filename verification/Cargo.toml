[package]
name = "smelter_media"
version = "0.1.0"
edition = "2021"
publish = false

[dependencies]
ash = "0.38"
axum = { version = "0.8", default-features = false, features = ["json"] }
bytes = "1"
cros-codecs = "*"
cros-libva = "*"
crossbeam-channel = "0.5"
javy-plugin-api = "*"
opus = "0.3"
rand = "0.9"
thiserror = "2"
tokio = { version = "1", features = ["rt", "rt-multi-thread"] }
tracing = "0.1"
utoipa = "5"
wgpu = { version = "*", default-features = false, features = ["vulkan"] }
wit-bindgen = "*"
