[package]
name = "zkml"
version = "0.1.0"
edition = "2021"
publish = false

[dependencies]
anyhow = "=1.0.104"
ark-std = "=0.5.0"
p3-field = "=0.2.0"
p3-goldilocks = "=0.2.0"
serde = { version = "=1.0.229", features = ["derive"] }

[dev-dependencies]
ndarray = "=0.16.1"
