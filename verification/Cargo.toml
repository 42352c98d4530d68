[package]
name = "tile_engine"
version = "0.1.0"
edition = "2021"
publish = false

[dependencies]
assets_manager = "=0.12.5"
rand = "=0.8.8"
