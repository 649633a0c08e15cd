[package]
name = "drive_image_searcher"
version = "0.1.0"
edition = "2021"
publish = false

[dependencies]
hex = "*"
chrono = "*"
clap = "*"
fern = "*"
humantime = "*"
log = "*"
lz4_flex = "*"
num-format = "*"
serde = { version = "*", features = ["derive"] }
serde_yaml = "*"
xz2 = "*"

[dev-dependencies]
serde_json = "*"
