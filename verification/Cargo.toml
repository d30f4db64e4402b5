[package]
name = "my_zk_rs"
version = "0.1.0"
edition = "2021"
publish = false

[dependencies]
ark-bls12-381 = "=0.5.0"
ark-ec = "=0.5.0"
ark-ff = "=0.5.0"
ark-serialize = "=0.5.0"
ark-std = "=0.5.0"
num-bigint = "=0.4.8"
num-traits = "=0.2.19"
sha2 = "=0.10.9"
zeroize = "=1.9.1"
