[package]
name = "tracking"
version = "0.1.0"
edition = "2021"
publish = false

[dependencies]
image = { version = "0.25", default-features = false, features = ["png", "jpeg"] }
opencv = { version = "*", default-features = false, features = ["tracking", "video"] }
thiserror = "2"
