[package]
name = "leo_synthesizer"
version = "0.1.0"
edition = "2021"
publish = false

[dependencies]
snarkvm-curves = "=0.12.2"
snarkvm-r1cs = "=0.12.2"
snarkvm-fields = "=0.12.2"
serde = { version = "=1.0.229", features = ["derive"] }
serde_json = "=1.0.154"
