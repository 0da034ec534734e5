[package]
name = "voltaire"
version = "0.1.0"
edition = "2021"
publish = false

[dependencies]
curve25519-dalek = { version = "=3.2.1", default-features = false, features = ["alloc", "u64_backend"] }
rand = "=0.8.8"
sha2 = "=0.10.9"
hex = "=0.4.3"
serde = { version = "=1.0.229", features = ["derive"] }
serde_json = "=1.0.154"
ark-bn254 = "=0.4.0"
ark-ff = "=0.4.2"
ark-crypto-primitives = { version = "=0.4.0", features = ["sponge", "r1cs"] }
ark-groth16 = "=0.4.0"
ark-r1cs-std = "=0.4.0"
ark-relations = "=0.4.0"
ark-snark = "=0.4.0"
ark-serialize = "=0.4.2"
ark-std = "=0.4.0"
