[package]
name = "shap_rs"
version = "0.1.0"
edition = "2021"
publish = false

[dependencies]
ndarray = { version = "=0.16.1", features = ["serde"] }
serde = { version = "1", features = ["derive"] }
serde_json = "1"
rand = "=0.8.5"
nalgebra = { version = "0.33", default-features = false, features = ["std"] }
rayon = "1"
