[package]
name = "tile_display"
version = "0.1.0"
edition = "2021"
publish = false

[dependencies]
ordered_hash_map = "*"
web-time = "*"
parking_lot = "*"
thiserror = "*"
galileo-types = "*"
