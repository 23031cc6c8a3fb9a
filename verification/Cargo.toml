[package]
name = "conduit"
version = "0.1.0"
edition = "2021"
publish = false

[dependencies]
ruma-signatures = "*"
ruma-common = "*"
serde_json = "*"
serde = "*"
sled = "*"
reqwest = { version = "*", default-features = false, features = ["blocking"] }
