[package]
name = "hp_core"
version = "0.1.0"
edition = "2021"
publish = false

[dependencies]
memchr = "=2.8.3"
regex = "=1.13.1"
zstd = "=0.14.3"
flate2 = "=1.1.10"
lopdf = "=0.46.0"
image = { version = "=0.25.10", default-features = false, features = ["png"] }
serde = { version = "=1.0.229", features = ["derive"] }
serde_json = "=1.0.154"
anyhow = "=1.0.104"
rand = "=0.10.3"
rand_chacha = "=0.10.0"
geo = "=0.33.1"
geo-clipper = "=0.9.0"
rapier2d = "=0.22.0"
