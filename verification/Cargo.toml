[package]
name = "bfield"
version = "0.1.0"
edition = "2021"
publish = false

[dependencies]
mmap-bitvec = "*"
murmurhash3 = "*"
bincode = "1"
serde = { version = "1", features = ["derive"] }
