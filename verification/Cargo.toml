[package]
name = "guixu"
version = "0.1.0"
edition = "2021"
publish = false

[dependencies]
bincode = "1"
memmap2 = "0.9"
rustc-hash = "2"
serde = { version = "1", features = ["derive"] }
thiserror = "2"
