[package]
name = "komodo"
version = "0.1.0"
edition = "2021"
publish = false

[dependencies]
ark-ff = "0.4"
ark-ec = "0.4"
ark-poly = "0.4"
ark-poly-commit = "0.4"
ark-serialize = "0.4"
ark-std = "0.4"
ark-bls12-381 = "0.4"
rs_merkle = "1.4"
rand = "0.8"
thiserror = "1"
anyhow = "1"
tracing = "0.1"
tracing-subscriber = "0.3"
dragoonfri = "*"

[dev-dependencies]
