[package]
name = "oxide_boot"
version = "0.1.0"
edition = "2021"
publish = false

[dependencies]
uefi = "=0.41.0"
spleen-font = { version = "=0.2.0", features = ["s8x16"] }
