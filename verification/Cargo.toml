[package]
name = "lopdf"
version = "0.1.0"
edition = "2021"
publish = false

[dependencies]
aes = "*"
cbc = "*"
flate2 = "*"
pdfium-render = "*"
serde = { version = "*", features = ["derive"] }
tempfile = "*"
