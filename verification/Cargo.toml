[package]
name = "rg"
version = "0.1.0"
edition = "2021"
publish = false

[dependencies]
anyhow = "1"
bitflags = "2"
bytemuck = { version = "1", features = ["derive"] }
crossbeam-utils = "0.8"
futures-lite = "1"
image = { version = "0.24", default-features = false, features = ["png"] }
parking_lot = "0.12"
rand = "0.8"
rand_pcg = "0.3"
rayon = "1"
rmp-serde = "1"
ron = "0.8"
serde = { version = "1", features = ["derive"] }
smallvec = "1"
spade = "2"
zstd = "0.13"
