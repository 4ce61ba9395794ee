[package]
name = "warden"
version = "0.1.0"
edition = "2021"
publish = false

[dependencies]
dirs = "5"
libc = "0.2"
notify = "6"
serde = { version = "1", features = ["derive"] }
serde_json = "1"
taplo = "0.13"
tempfile = "3"
thiserror = "1"
toml = "0.8"
