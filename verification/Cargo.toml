[package]
name = "toncall"
version = "0.1.0"
edition = "2021"
publish = false

[dependencies]
hex = "=0.4.3"
serde_json = "=1.0.151"
chrono = "=0.4.45"
qr2term = "=0.3.3"
