[package]
name = "flashbang"
version = "0.1.0"
edition = "2021"
publish = false

[dependencies]
yazi = "*"
reqwest = { version = "*", default-features = false, features = ["blocking", "json", "rustls-tls"] }
serde = { version = "*", features = ["derive"] }
serde_json = "*"
flate2 = "*"
tar = "*"
walkdir = "*"
postcard = { version = "*", features = ["use-std"] }
directories = "*"
nucleo = "*"
