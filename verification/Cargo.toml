[package]
name = "prayer"
version = "0.1.0"
edition = "2021"
publish = false

[dependencies]
nalgebra-glm = { version = "=0.21.0", features = ["serde-serialize"] }
image = "=0.25.10"
rand = "=0.10.3"
rayon = "=1.12.0"
serde = { version = "=1.0.229", features = ["derive"] }
toml = "=1.1.7"
