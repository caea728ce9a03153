[package]
name = "orion_utils"
version = "0.1.0"
edition = "2021"
publish = false

[dependencies]
arrayvec = "0.7"
ed25519-dalek = { version = "2", features = ["rand_core"] }
pqc_dilithium = "0.2"
pqc_kyber = "0.7"
x25519-dalek = { version = "2", features = ["static_secrets"] }
aes-gcm = "0.10"
sha3 = "0.10"
thiserror = "1"
log = "0.4"
futures = "0.3"
hex = "0.4"
serde = { version = "1", features = ["derive"] }
serde_json = "1"
spin = "0.9"
instant = "0.1"
