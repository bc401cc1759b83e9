[package]
name = "bogon"
version = "0.1.0"
edition = "2021"
publish = false

[dependencies]
csv = "=1.4.0"
ipnetwork = { version = "=0.21.1", features = ["serde"] }
reqwest = { version = "*", features = ["blocking"] }
rustc_version = "*"
serde = { version = "=1.0.229", features = ["derive"] }
