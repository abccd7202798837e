[package]
name = "avs_contributor"
version = "0.1.0"
edition = "2021"
publish = false

[dependencies]
anyhow = "*"
bn254 = "*"
bytes = "*"
commonware-codec = "*"
commonware-cryptography = "*"
commonware-p2p = "*"
commonware-utils = "*"
dotenv = "*"
tracing = "*"

[dev-dependencies]
ark-bn254 = "*"
