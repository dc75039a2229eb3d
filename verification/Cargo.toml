[package]
name = "drk"
version = "0.1.0"
edition = "2021"
publish = false

[dependencies]
async-channel = "=2.5.0"
async-executor = "=1.14.0"
async-std = "=1.13.2"
bellman = "=0.15.0"
bitcoin = "=0.32.102"
blake2b_simd = "=1.0.5"
bls12_381 = "=0.9.0"
bs58 = "=0.5.1"
chacha20poly1305 = "=0.11.0"
clap = "=4.6.7"
easy-parallel = "=3.3.1"
ff = "=0.14.0"
futures = "=0.3.34"
groth16 = "=0.2.0"
group = "=0.14.0"
jubjub = "=0.11.1"
log = "=0.4.34"
pairing = "=0.24.0"
rand = "=0.10.3"
rusqlite = { version = "=0.41.0", features = ["bundled"] }
sapling-crypto = "=0.9.0"
serde = { version = "=1.0.229", features = ["derive"] }
simplelog = "=0.12.2"
smol = "=2.0.2"
zcash_primitives = "=0.31.0"

[dev-dependencies]
incrementalmerkletree = { version = "=0.9.0", features = ["legacy-api"] }
