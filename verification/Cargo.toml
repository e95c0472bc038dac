[package]
name = "dng_profiles"
version = "0.1.0"
edition = "2021"
publish = false

[dependencies]
jpeg-encoder = "=0.7.1"
rayon = "=1.12.0"
zune-jpeg = { version = "0.4.21", default-features = false, features = ["std"] }
