[package]
name = "puteron"
version = "0.1.0"
edition = "2021"
publish = false

[dependencies]
rand = "=0.9.5"
chrono = "=0.4.45"
serde = { version = "=1.0.229", features = ["derive"] }
serde_json = "=1.0.154"
sha2 = "=0.10.9"
libc = "=0.2.191"
