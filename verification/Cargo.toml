[package]
name = "fitskit"
version = "0.1.0"
edition = "2021"
publish = false

[dependencies]
miniz_oxide = { version = "0.8", features = ["with-alloc"] }
image = { version = "0.25", default-features = false }
mapproj = "0.3"
