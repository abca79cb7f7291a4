[package]
name = "arrow2"
version = "0.1.0"
edition = "2021"
publish = false

[dependencies]
arrow-format = { version = "0.3", features = ["ipc"] }
comfy-table = { version = "5.0", default-features = false }
flatbuffers = "2.0"
lz4 = "*"
zstd = "*"
