[package]
name = "beholders"
version = "0.1.0"
edition = "2021"
publish = false

[dependencies]
kzg = "=0.6.0"
bls12_381 = { version = "=0.6.1", default-features = false, features = ["groups", "pairings", "alloc"] }
pairing = "=0.21.0"
rand = "=0.8.8"
sha2 = { version = "=0.10.9", features = ["compress"] }
rayon = "=1.10.0"
anyhow = "=1.0.104"
clap = { version = "=4.5.61", features = ["derive"] }
humansize = "=2.1.3"
