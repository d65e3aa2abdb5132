[package]
name = "stellar_mixer"
version = "0.1.0"
edition = "2021"
publish = false

[dependencies]
sha2 = { version = "0.10", features = ["oid"] }
rsa = { version = "0.9", features = ["sha2"] }
parity-scale-codec = { version = "3", features = ["derive"] }
hex = "0.4"
anyhow = "1"
rand_core = { version = "0.6", features = ["getrandom"] }
risc0-zkvm = { version = "*", default-features = false, features = ["client"] }
