[package]
name = "meteor_dedup"
version = "0.1.0"
edition = "2021"
publish = false

[dependencies]
serde = { version = "*", features = ["derive"] }
serde-jsonlines = "*"
rayon = "*"
pyo3 = "*"
