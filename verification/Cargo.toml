[package]
name = "fspke"
version = "0.1.0"
edition = "2021"
publish = false

[dependencies]
aes = "0.8"
arrayvec = "0.7"
bls12_381 = "0.8"
ctr = "0.9"
group = "0.13"
rand = "0.8"
serde = { version = "1", features = ["derive"] }
sha3 = "0.10"
thiserror = "1"
