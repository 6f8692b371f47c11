[package]
name = "sudachi"
version = "0.1.0"
edition = "2021"
publish = false

[dependencies]
regex = "1"
yada = "0.5"
serde = { version = "1", features = ["derive"] }
serde_json = "1"
memmap2 = "0.9"
libc = "0.2"
thiserror = "1"
itertools = "*"
