[package]
name = "neuxdb"
version = "0.1.0"
edition = "2021"
publish = false

[dependencies]
age-crypto = "=0.1.0"
anyhow = "=1.0.104"
csv = "=1.4.0"
fs2 = "=0.4.3"
hex = "=0.4.3"
lazy_static = "=1.5.1"
regex = "=1.13.1"
serde = { version = "=1.0.229", features = ["derive"] }
serde_json = "=1.0.154"
sha2 = "=0.10.9"
tempfile = "=3.27.0"
thiserror = "=2.0.21"
zeroize = "=1.9.1"
