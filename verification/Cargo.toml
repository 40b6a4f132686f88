[package]
name = "voxelkloud"
version = "0.1.0"
edition = "2021"
publish = false

[dependencies]
brotli = "*"
clap = { version = "4", features = ["derive"] }
e57 = "*"
laz = "*"
png = "*"
serde_json = "1"
ureq = "3"
