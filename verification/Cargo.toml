[package]
name = "pqc_engines"
version = "0.1.0"
edition = "2021"
publish = false

[dependencies]
sha3 = "=0.10.9"
getrandom = "=0.3.4"
ml-kem = { version = "=0.3.4", features = ["getrandom"] }
ml-dsa = "=0.1.2"
libcrux-ml-kem = "=0.0.11"
libcrux-ml-dsa = "=0.0.11"
signature = "=3.0.0"
serde = { version = "=1.0.229", features = ["derive"] }
serde_json = "=1.0.154"
clap = { version = "=4.6.7", features = ["derive"] }
