[package]
name = "secret_sharing"
version = "0.1.0"
edition = "2021"
publish = false

[dependencies]
base64 = "=0.21.7"
rand = "=0.8.8"
rand_chacha = "=0.3.1"
sharks = "=0.5.0"
