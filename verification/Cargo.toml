[package]
name = "aead_framer"
version = "0.1.0"
edition = "2021"
publish = false

[dependencies]
aes-gcm = "0.10"
hkdf = "0.12"
sha1 = "0.10"
tokio = { version = "1", features = ["net", "io-util", "rt", "time"] }
