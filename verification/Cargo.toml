[package]
name = "inundiato"
version = "0.1.0"
edition = "2021"
publish = false

[dependencies]
fastrand = "2"
rand = "0.8"
serde = { version = "1", features = ["derive"] }
tinyvec = "1"
