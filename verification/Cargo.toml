[package]
name = "plane_geometry"
version = "0.1.0"
edition = "2021"
publish = false

[dependencies]
clap = { version = "*", features = ["derive"] }
colored = "*"
rand = "*"
serde = { version = "*", features = ["derive"] }
