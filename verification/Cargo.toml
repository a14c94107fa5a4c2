[package]
name = "cff_codec"
version = "0.1.0"
edition = "2021"
publish = false

[dependencies]
serde = { version = "*", features = ["derive"] }

[dev-dependencies]
font-test-data = "*"
read-fonts = "*"
