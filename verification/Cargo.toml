[package]
name = "logdna_client"
version = "0.1.0"
edition = "2021"
publish = false

[dependencies]
chrono = "*"
flate2 = "*"
http = "*"
serde_json = "*"
serde_urlencoded = "*"
