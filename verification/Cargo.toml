[package]
name = "voxelshape_conv"
version = "0.1.1"
edition = "2021"
publish = false

[dependencies]
serde = "1"
serde_derive = "1"
serde_json = "1"
