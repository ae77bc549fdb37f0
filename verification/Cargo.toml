[package]
name = "scylla"
version = "0.1.0"
edition = "2021"
publish = false

[dependencies]
blake2 = "0.8"
chacha = "0.3"
lioness = "0.1"
curve25519-dalek = { version = "4", features = ["digest"] }
hkdf = "0.12"
rand = "0.9"
rand_chacha = "0.9"
rand_distr = "0.5"
rustc-hash = "2"
serde = { version = "1", features = ["derive"] }
sha2 = "0.10"
sha3 = "0.10"
thiserror = "2"
eyre = "0.6"
csv = "1"
rayon = "1"
sphinx-packet = "*"
