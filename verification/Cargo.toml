[package]
name = "arkcursor"
version = "0.1.0"
edition = "2021"
publish = false

[dependencies]
image = { version = "0.25", default-features = false, features = ["png", "bmp", "ico", "gif", "jpeg"] }
serde = { version = "1", features = ["derive"] }
toml = "0.8"
log = "0.4"
egui = "0.31"
