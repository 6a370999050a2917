[package]
name = "pool"
version = "0.1.0"
edition = "2021"
publish = false

[dependencies]
serde = { version = "=1.0.229", features = ["derive"] }
serde_json = "=1.0.154"
encoding_rs = "=0.8.44"
sha2 = "=0.10.9"
image = { version = "=0.25.10", default-features = false, features = ["png", "jpeg"] }
ab_glyph = "=0.2.32"
base64 = "0.22"
zip = { version = "*", default-features = false, features = ["deflate"] }
