[package]
name = "knot"
version = "0.1.0"
edition = "2021"
publish = false

[dependencies]
malachite-base = "=0.14.0"
malachite-nz = "=0.14.0"
malachite-q = "=0.14.0"
nalgebra = { version = "=0.35.0", features = ["serde-serialize"] }
serde = { version = "=1.0.229", features = ["derive"] }
thiserror = "=2.0.21"
