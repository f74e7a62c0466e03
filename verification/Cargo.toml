[package]
name = "pipeline_layout"
version = "0.1.0"
edition = "2021"
publish = false

[dependencies]
ahash = "0.8"
ash = "0.37.3"
smallvec = "1.8"
