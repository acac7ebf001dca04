[package]
name = "scene_plan"
version = "0.1.0"
edition = "2021"
publish = false

[dependencies]
anyhow = "1"
block = "0.1"
cocoa = "0.26"
core-foundation = "0.10"
core-video = { version = "0.4", features = ["metal"] }
foreign-types = "0.5"
image = { version = "0.25", default-features = false }
log = "0.4"
metal = "0.29"
objc = "0.2"
parking_lot = "0.12"
schemars = { version = "1", features = ["derive"] }
serde = { version = "1", features = ["derive"] }
