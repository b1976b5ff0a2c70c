[package]
name = "serial_mcp"
version = "0.1.0"
edition = "2021"
publish = false

[dependencies]
base64 = "=0.22.1"
hex = "=0.4.3"
serde = { version = "=1.0.229", features = ["derive"] }
serde_json = "=1.0.154"
regex = "=1.13.1"
tempfile = "=3.27.0"
fs2 = "=0.4.3"
tokio = { version = "=1.54.1", features = ["sync", "rt", "macros"] }
pico-args = "0.5"
