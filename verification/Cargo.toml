[package]
name = "retinue"
version = "0.1.0"
edition = "2021"
publish = false

[dependencies]
aes = "0.8"
bzip2 = "0.6"
cbc = { version = "0.1", features = ["alloc"] }
ctr = "0.9"
curve25519-dalek = "4"
ed25519-dalek = "2"
getrandom = "0.2"
hkdf = "0.12"
hmac = "0.12"
lora-modulation = "0.1"
sha2 = "0.10"
tokio = { version = "1", features = ["io-util", "macros", "net", "rt", "sync", "time"] }
x25519-dalek = { version = "2", features = ["static_secrets"] }
