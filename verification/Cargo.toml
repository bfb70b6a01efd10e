[package]
name = "breakpoints"
version = "0.1.0"
edition = "2021"
publish = false

[dependencies]
rug = { version = "1", default-features = false, features = ["integer", "float"] }
ndarray = "0.16"
lazy_static = "1"
