[package]
name = "device_cache"
version = "0.1.0"
edition = "2021"
publish = false

[dependencies]
anyhow = "1"
oci-spec = { version = "*", default-features = false, features = ["runtime"] }
once_cell = "1"
