[package]
name = "encrypt_save"
version = "0.1.0"
edition = "2021"
publish = false

[dependencies]
simple_crypt = "*"
fastrand = "*"
dirs = "*"
serde = { version = "*", features = ["derive"] }
bincode = { version = "*", features = ["serde"] }
ron = "*"
