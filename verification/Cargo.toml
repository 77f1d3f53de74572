[package]
name = "nanogbm"
version = "0.4.0"
edition = "2021"
publish = false

[dependencies]
bincode = { version = "=2.0.1", features = ["serde"] }
csv = "=1.4.0"
gxhash = "2"
rand = "=0.8.8"
rand_chacha = "=0.3.1"
rayon = "=1.12.0"
serde = { version = "=1.0.229", features = ["derive"] }
thiserror = "=2.0.21"
