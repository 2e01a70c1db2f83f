[package]
name = "babiniku"
version = "0.1.0"
edition = "2021"
publish = false

[dependencies]
anyhow = "1"
candle-core = { version = "0.9", default-features = false }
candle-nn = { version = "0.9", default-features = false }
cpal = "*"
hf-hub = { version = "0.4", default-features = false, features = ["ureq", "rustls-tls"] }
libpulse-binding = "2"
libpulse-simple-binding = "2"
rustfft = "6"
thiserror = "2"
ureq = { version = "2", default-features = false, features = ["tls"] }
zip = { version = "2", default-features = false, features = ["deflate"] }
