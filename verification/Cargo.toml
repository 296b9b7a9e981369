[package]
name = "nef-compactor"
version = "0.1.0"
edition = "2021"
publish = false

[dependencies]
jpegxl-rs = { version = "0.11", features = ["vendored"] }
jpegxl-sys = "0.11"
lexopt = "0.3"
zstd = "0.13"
