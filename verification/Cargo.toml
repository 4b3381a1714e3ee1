[package]
name = "kkc_plugins"
version = "0.1.0"
edition = "2021"
publish = false

[dependencies]
abi_stable = { version = "=0.11.3", default-features = false }
base64 = "=0.22.1"
calamine = "=0.38.0"
chrono = "=0.4.45"
delharc = "=0.8.0"
epub = "=2.1.6"
flume = "=0.12.0"
lru = "=0.19.0"
mupdf = "=0.8.0"
once_cell = "=1.21.4"
percent-encoding = "=2.3.2"
rayon = "=1.12.0"
serde = { version = "=1.0.229", features = ["derive"] }
serde_json = "=1.0.154"
unicode-width = "=0.2.3"
ureq = "=2.12.1"
wide = "=0.7.33"
