[package]
name = "cp6_782"
version = "0.1.0"
edition = "2021"
publish = false

[dependencies]
ark-ec = { version = "0.5", default-features = false }
ark-ff = { version = "0.5", default-features = false }
ark-serialize = { version = "0.5", default-features = false, features = ["derive"] }
ark-std = { version = "0.5", default-features = false }
