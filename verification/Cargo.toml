[package]
name = "bevy_hecs"
version = "0.1.0"
edition = "2021"
publish = false

[dependencies]
ahash = "=0.7.8"
bevy_utils = "=0.5.0"
