[package]
name = "copernica"
version = "0.1.0"
edition = "2021"
publish = false

[dependencies]
anyhow = "1"
bincode = "1"
crossbeam-channel = "0.5"
cryptoxide = "*"
env_logger = "*"
im = "15"
log = "0.4"
sha3 = "0.8"
sled = "0.34"

[dev-dependencies]
borsh = "1"
