[package]
name = "chromagrain"
version = "0.1.0"
edition = "2021"
publish = false

[dependencies]
rtrb = "0.3"
hound = "3.5"
rhai = "1"
image = { version = "0.25", default-features = false, features = ["png"] }
eframe = { version = "0.31", default-features = false, features = ["glow", "default_fonts", "x11"] }
